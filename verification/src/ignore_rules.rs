//! Gitignore-style rule matching for the confined filesystem: the server's
//! configured overrides and `.pteroignore` lines are compiled once and asked
//! about each path. The matching itself is the ignore crate's; the verdict
//! for a fixed rule set is a pure function of the path, named here.

use vstd::prelude::*;
use vstd::string::StringExecFns;

verus! {

/// The verdict of the ignore crate's gitignore matcher: whether a path,
/// matched against the given rule lines, is ignored.
pub uninterp spec fn spec_ignore_match(rules: Seq<Seq<char>>, path: Seq<char>, is_dir: bool) -> bool;

pub open spec fn pv(v: Seq<String>) -> Seq<Seq<char>> {
    v.map_values(|s: String| s@)
}

/// A path as the matcher sees it: components joined with `/`.
pub open spec fn spec_join(p: Seq<Seq<char>>) -> Seq<char>
    decreases p.len(),
{
    if p.len() == 0 {
        Seq::empty()
    } else if p.len() == 1 {
        p[0]
    } else {
        spec_join(p.drop_last()) + seq!['/'] + p.last()
    }
}

/// Joins path components with `/` for the matcher.
pub fn join_path(p: &Vec<String>) -> (r: String)
    ensures
        r@ == spec_join(pv(p@)),
{
    let mut out = String::new();
    let mut i: usize = 0;
    while i < p.len()
        invariant
            0 <= i <= p@.len(),
            out@ == spec_join(pv(p@).subrange(0, i as int)),
        decreases p@.len() - i,
    {
        if i > 0 {
            out.append("/");
            proof {
                reveal_strlit("/");
                assert("/"@ =~= seq!['/']);
            }
        }
        out.append(p[i].as_str());
        proof {
            assert(pv(p@).subrange(0, i + 1).drop_last() =~= pv(p@).subrange(0, i as int));
            assert(pv(p@).subrange(0, i + 1).last() == p@[i as int]@);
            if i == 0 {
                assert(out@ =~= spec_join(pv(p@).subrange(0, 1)));
            }
        }
        i += 1;
    }
    proof {
        assert(pv(p@).subrange(0, p@.len() as int) =~= pv(p@));
    }
    out
}

/// A compiled set of gitignore lines. The lines are kept beside the
/// compiled matcher so that contracts can speak of them.
pub struct IgnoreRules {
    rules: Vec<String>,
    matcher: ignore::gitignore::Gitignore,
}

#[verifier::external_type_specification]
#[verifier::external_body]
pub struct ExGitignore(ignore::gitignore::Gitignore);

impl IgnoreRules {
    /// The rule lines this matcher was built from.
    pub closed spec fn rules_view(&self) -> Seq<Seq<char>> {
        pv(self.rules@)
    }

    /// Relies on ignore's GitignoreBuilder/Gitignore: compiles the given
    /// gitignore lines into a matcher; a line that does not parse as a glob
    /// is reported by `add_line` and dropped here.
    #[verifier::external_body]
    pub fn new(rules: Vec<String>) -> (r: IgnoreRules)
        ensures
            r.rules_view() == pv(rules@),
    {
        let mut builder = ignore::gitignore::GitignoreBuilder::new("");
        for line in rules.iter() {
            let _ = builder.add_line(None, line);
        }
        let matcher = builder.build().unwrap_or_else(|_| ignore::gitignore::Gitignore::empty());
        IgnoreRules { rules, matcher }
    }

    /// Relies on ignore's Gitignore::matched: for a fixed rule set the
    /// verdict depends on the path and the directory flag alone.
    #[verifier::external_body]
    pub fn matches(&self, path: &str, is_dir: bool) -> (r: bool)
        ensures
            r == spec_ignore_match(self.rules_view(), path@, is_dir),
    {
        self.matcher.matched(path, is_dir).is_ignore()
    }

    /// The verdict for a path given as components.
    pub fn matches_components(&self, path: &Vec<String>, is_dir: bool) -> (r: bool)
        ensures
            r == spec_ignore_match(self.rules_view(), spec_join(pv(path@)), is_dir),
    {
        let joined = join_path(path);
        self.matches(joined.as_str(), is_dir)
    }
}

} // verus!
