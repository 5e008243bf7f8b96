//! Configured mappings and the paths derived from the configuration file.
//!
//! A dotfile mapping pairs a template source with a live target path. The
//! helpers here are pure path arithmetic over already-resolved absolute
//! paths: the library never resolves `~`, `$HOME` or relative paths
//! itself.

use vstd::prelude::*;

use crate::error::DotfilerError;
use crate::text::str_eq;

verus! {

/// One configured mapping: a template source path and a live target path.
pub struct Dotfile {
    pub template: String,
    pub target: String,
}

impl View for Dotfile {
    type V = (Seq<char>, Seq<char>);

    open spec fn view(&self) -> (Seq<char>, Seq<char>) {
        (self.template@, self.target@)
    }
}

/// The views of a mapping list.
pub open spec fn dotfile_views(s: Seq<Dotfile>) -> Seq<(Seq<char>, Seq<char>)> {
    s.map_values(|d: Dotfile| d@)
}

/// The position of the last slash in a path, or a negative value when
/// there is none.
pub open spec fn last_slash(s: Seq<char>) -> int
    decreases s.len(),
{
    if s.len() == 0 {
        -1
    } else if s[s.len() - 1] == '/' {
        s.len() - 1
    } else {
        last_slash(s.drop_last())
    }
}

proof fn lemma_last_slash(s: Seq<char>)
    ensures
        -1 <= last_slash(s) < s.len(),
        last_slash(s) >= 0 ==> s[last_slash(s)] == '/',
        forall|i: int| last_slash(s) < i < s.len() ==> s[i] != '/',
    decreases s.len(),
{
    if s.len() == 0 {
    } else if s[s.len() - 1] == '/' {
    } else {
        lemma_last_slash(s.drop_last());
        assert(forall|i: int| 0 <= i < s.len() - 1 ==> s[i] == s.drop_last()[i]);
    }
}

/// The path of the directory named `name` beside the configuration file:
/// the file's parent directory with `name` joined onto it.
pub open spec fn sibling_dir_path(config: Seq<char>, name: Seq<char>) -> Seq<char> {
    if last_slash(config) < 0 {
        name
    } else {
        config.take(last_slash(config)) + seq!['/'] + name
    }
}

/// Finds the last slash of a path, if any.
fn find_last_slash(s: &str) -> (res: Option<usize>)
    ensures
        match res {
            Some(k) => last_slash(s@) == k as int,
            None => last_slash(s@) < 0,
        },
{
    proof {
        lemma_last_slash(s@);
    }
    let n = s.unicode_len();
    let mut i: usize = n;
    while i > 0
        invariant
            0 <= i <= n,
            n == s@.len(),
            forall|q: int| i <= q < n ==> s@[q] != '/',
            last_slash(s@) < s@.len(),
            last_slash(s@) >= 0 ==> s@[last_slash(s@)] == '/',
            forall|q: int| last_slash(s@) < q < s@.len() ==> s@[q] != '/',
        decreases i,
    {
        i -= 1;
        if s.get_char(i) == '/' {
            proof {
                if last_slash(s@) < i as int {
                    assert(s@[i as int] != '/');
                    assert(false);
                }
                if (i as int) < last_slash(s@) {
                    assert(s@[last_slash(s@)] != '/');
                    assert(false);
                }
            }
            return Some(i);
        }
    }
    None
}

/// Joins `name` onto the parent directory of the configuration file.
fn sibling_dir(config_path: &str, name: &str) -> (res: String)
    ensures
        res@ == sibling_dir_path(config_path@, name@),
{
    proof {
        lemma_last_slash(config_path@);
    }
    match find_last_slash(config_path) {
        Some(k) => {
            let mut out = config_path.substring_char(0, k).to_owned();
            out.append("/");
            out.append(name);
            proof {
                reveal_strlit("/");
                assert("/"@ =~= seq!['/']);
                assert(config_path@.subrange(0, k as int) =~= config_path@.take(k as int));
                assert(out@ =~= sibling_dir_path(config_path@, name@));
            }
            out
        },
        None => name.to_owned(),
    }
}

/// The `templates` directory beside the configuration file. The root
/// directory has no parent and is not a configuration file path.
pub fn get_templates_path(config_path: &str) -> (res: String)
    requires
        config_path@ != "/"@,
    ensures
        res@ == sibling_dir_path(config_path@, "templates"@),
{
    sibling_dir(config_path, "templates")
}

/// The `scripts` directory beside the configuration file. The root
/// directory has no parent and is not a configuration file path.
pub fn get_scripts_path(config_path: &str) -> (res: String)
    requires
        config_path@ != "/"@,
    ensures
        res@ == sibling_dir_path(config_path@, "scripts"@),
{
    sibling_dir(config_path, "scripts")
}

/// One mapping collides with the candidate paths: same template source or
/// same target.
pub open spec fn collides(d: (Seq<char>, Seq<char>), template_path: Seq<char>, tar_path: Seq<char>) -> bool {
    d.0 == template_path || d.1 == tar_path
}

/// The position of the first existing mapping that already uses the
/// candidate template path or the candidate target path, if any. Paths
/// are compared as given: the caller resolves them first.
pub fn template_exists_already(
    dotfiles: &Vec<Dotfile>,
    template_path: &str,
    tar_path: &str,
) -> (res: Option<usize>)
    ensures
        match res {
            Some(i) => i < dotfiles@.len() && collides(
                dotfile_views(dotfiles@)[i as int],
                template_path@,
                tar_path@,
            ) && forall|q: int| 0 <= q < i ==> !collides(
                #[trigger] dotfile_views(dotfiles@)[q],
                template_path@,
                tar_path@,
            ),
            None => forall|q: int| 0 <= q < dotfiles@.len() ==> !collides(
                #[trigger] dotfile_views(dotfiles@)[q],
                template_path@,
                tar_path@,
            ),
        },
{
    let n = dotfiles.len();
    let mut i: usize = 0;
    while i < n
        invariant
            0 <= i <= n,
            n == dotfiles@.len(),
            forall|q: int| 0 <= q < i ==> !collides(
                #[trigger] dotfile_views(dotfiles@)[q],
                template_path@,
                tar_path@,
            ),
        decreases n - i,
    {
        let hit = str_eq(dotfiles[i].template.as_str(), template_path) || str_eq(
            dotfiles[i].target.as_str(),
            tar_path,
        );
        if hit {
            proof {
                assert(dotfile_views(dotfiles@)[i as int] == dotfiles@[i as int]@);
            }
            return Some(i);
        }
        proof {
            assert(dotfile_views(dotfiles@)[i as int] == dotfiles@[i as int]@);
        }
        i += 1;
    }
    None
}

/// One planned template creation: which source file to write, over which
/// live target, and whether the target is an embedded database file.
pub struct TemplateStep {
    pub source: String,
    pub target: String,
    pub is_db: bool,
}

impl View for TemplateStep {
    type V = (Seq<char>, Seq<char>, bool);

    open spec fn view(&self) -> (Seq<char>, Seq<char>, bool) {
        (self.source@, self.target@, self.is_db)
    }
}

/// The views of a step list.
pub open spec fn step_views(s: Seq<TemplateStep>) -> Seq<(Seq<char>, Seq<char>, bool)> {
    s.map_values(|t: TemplateStep| t@)
}

/// The planned steps: each mapping's template file lives in the
/// `templates` directory beside the configuration file, and the step
/// keeps the probed database flag of its target.
pub open spec fn template_steps(
    config: Seq<char>,
    ds: Seq<(Seq<char>, Seq<char>)>,
    flags: Seq<bool>,
) -> Seq<(Seq<char>, Seq<char>, bool)> {
    Seq::new(
        ds.len(),
        |i: int|
            (
                sibling_dir_path(config, "templates"@) + seq!['/'] + ds[i].0,
                ds[i].1,
                flags[i],
            ),
    )
}

/// Plans the creation of template files from the live targets of the
/// configured mappings: one step per mapping, naming the template file in
/// the `templates` directory beside the configuration file and carrying
/// whether the probed target is a database file (`flags`, one per
/// mapping, in order). The configuration file cannot sit at the
/// filesystem root.
#[verifier::loop_isolation(false)]
pub fn create_templates(
    config_path: &str,
    dotfiles: &Vec<Dotfile>,
    db_targets: &Vec<bool>,
) -> (res: Result<Vec<TemplateStep>, DotfilerError>)
    requires
        db_targets@.len() == dotfiles@.len(),
    ensures
        ({
            let root = config_path@ == "/"@ || config_path@.len() == 0;
            match res {
                Ok(steps) => !root && step_views(steps@) == template_steps(
                    config_path@,
                    dotfile_views(dotfiles@),
                    db_targets@,
                ),
                Err(e) => root && e is BuildFailure,
            }
        }),
{
    if config_path.unicode_len() == 0 || str_eq(config_path, "/") {
        proof {
            reveal_strlit("/");
        }
        return Err(
            DotfilerError::BuildFailure(
                String::from_str("the configuration file cannot sit at the filesystem root"),
            ),
        );
    }
    let dir = sibling_dir(config_path, "templates");
    let n = dotfiles.len();
    let mut out: Vec<TemplateStep> = Vec::new();
    let mut i: usize = 0;
    while i < n
        invariant
            0 <= i <= n,
            out@.len() == i,
            step_views(out@) == template_steps(
                config_path@,
                dotfile_views(dotfiles@),
                db_targets@,
            ).take(i as int),
        decreases n - i,
    {
        let mut source = dir.clone();
        source.append("/");
        source.append(dotfiles[i].template.as_str());
        let ghost before = out@;
        out.push(
            TemplateStep { source, target: dotfiles[i].target.clone(), is_db: db_targets[i] },
        );
        proof {
            reveal_strlit("/");
            assert("/"@ =~= seq!['/']);
            assert(dotfile_views(dotfiles@)[i as int] == dotfiles@[i as int]@);
            assert(forall|q: int| 0 <= q < before.len() ==> out@[q] == before[q]);
            let want = template_steps(config_path@, dotfile_views(dotfiles@), db_targets@);
            assert(step_views(out@)[i as int].0 =~= want[i as int].0);
            assert(step_views(out@)[i as int] == want[i as int]);
            assert(step_views(out@) =~= want.take(i + 1));
        }
        i += 1;
    }
    proof {
        assert(template_steps(config_path@, dotfile_views(dotfiles@), db_targets@).take(
            n as int,
        ) =~= template_steps(config_path@, dotfile_views(dotfiles@), db_targets@));
    }
    Ok(out)
}

} // verus!
