//! Directory-name conventions: recovering trace names and pruning the walk.

use crate::text::{chars_vec, push_char, str_eq};
use vstd::prelude::*;

verus! {

/// The trace name encoded by a benchmark group directory name: the directory
/// name with every `_` turned back into `/`.
pub open spec fn recover_name(dir: Seq<char>) -> Seq<char> {
    dir.map_values(|c: char| if c == '_' { '/' } else { c })
}

/// The directory name that the harness writes for a trace name: every `/`
/// replaced by `_`.
pub open spec fn mask_name(name: Seq<char>) -> Seq<char> {
    name.map_values(|c: char| if c == '/' { '_' } else { c })
}

/// Recovering a masked name gives the original back, as long as the original
/// contains no literal `_` (the substitution cannot tell those apart).
pub proof fn lemma_name_recovery(name: Seq<char>)
    requires
        forall|i: int| 0 <= i < name.len() ==> name[i] != '_',
    ensures
        recover_name(mask_name(name)) == name,
{
    assert(recover_name(mask_name(name)) =~= name);
}

/// Guess the benchmark group name from the group directory name.
pub fn guess_benchmark_name(benchmark_group_dir: &str) -> (r: String)
    ensures
        r@ == recover_name(benchmark_group_dir@),
{
    let chars: Vec<char> = chars_vec(benchmark_group_dir);
    let mut out: String = String::new();
    let mut i: usize = 0;
    while i < chars.len()
        invariant
            i <= chars@.len(),
            out@ == recover_name(chars@.take(i as int)),
            chars@ == benchmark_group_dir@,
        decreases chars@.len() - i,
    {
        let c: char = chars[i];
        if c == '_' {
            push_char(&mut out, '/');
        } else {
            push_char(&mut out, c);
        }
        i = i + 1;
        proof {
            assert(out@ =~= recover_name(chars@.take(i as int)));
        }
    }
    proof {
        assert(chars@.take(chars@.len() as int) =~= chars@);
    }
    out
}

/// Whether the regular expression compiled from `pattern` matches `text`
/// somewhere.  What this holds is decided by the regex engine; the library
/// only carries the answer around.
pub uninterp spec fn regex_matches(pattern: Seq<char>, text: Seq<char>) -> bool;

#[verifier::external_type_specification]
#[verifier::external_body]
pub struct ExRegex(regex::Regex);

/// A user-supplied trace selector: a compiled regular expression together
/// with the pattern it was compiled from.
///
/// The fields are private and only [`GroupFilter::new`] fills them, so the
/// compiled expression always belongs to the stored pattern.
pub struct GroupFilter {
    regex: regex::Regex,
    pattern: String,
}

impl View for GroupFilter {
    type V = Seq<char>;

    /// A filter is viewed as its pattern.
    closed spec fn view(&self) -> Seq<char> {
        self.pattern@
    }
}

impl GroupFilter {
    /// Relies on `regex::Regex::new`: compiles `pattern`, `Ok` exactly when
    /// the pattern is valid regex syntax (which only the engine decides).
    #[verifier::external_body]
    pub fn new(pattern: &str) -> (r: Result<GroupFilter, String>)
        ensures
            r is Ok ==> r.unwrap()@ == pattern@,
    {
        match regex::Regex::new(pattern) {
            Ok(regex) => Ok(GroupFilter { regex, pattern: pattern.to_string() }),
            Err(e) => Err(format!("{e}")),
        }
    }

    /// The pattern this filter was compiled from.
    pub fn pattern(&self) -> (r: &str)
        ensures
            r@ == self@,
    {
        self.pattern.as_str()
    }

    /// Relies on `regex::Regex::is_match`: reports whether the compiled
    /// expression matches `text`; the expression was compiled from the
    /// stored pattern.
    #[verifier::external_body]
    pub fn is_match(&self, text: &str) -> (r: bool)
        ensures
            r == regex_matches(self@, text@),
    {
        self.regex.is_match(text)
    }
}

/// Whether a data file name carries the `.json` extension.
pub open spec fn has_json_suffix(name: Seq<char>) -> bool {
    name.len() >= 5 && name.subrange(name.len() - 5, name.len() as int) == ".json"@
}

/// A data file name without its `.json` extension.
pub open spec fn json_stem(name: Seq<char>) -> Seq<char> {
    name.subrange(0, name.len() - 5)
}

/// The pruning rule of the directory walk, on the components of a path
/// relative to the result root.  An entry is kept exactly when every
/// component present passes its check: the group directory is not the
/// rendered report and its recovered name matches the pattern, the value
/// directory is not the rendered report, the dataset marker is `new`, and
/// the file is one of the two record kinds.  Entries of fewer components
/// are ancestors still under consideration.
pub open spec fn spec_keep(comps: Seq<Seq<char>>, pattern: Seq<char>) -> bool {
    &&& comps.len() >= 1 ==> comps[0] != "report"@ && regex_matches(
        pattern,
        recover_name(comps[0]),
    )
    &&& comps.len() >= 2 ==> comps[1] != "report"@
    &&& comps.len() >= 3 ==> comps[2] == "new"@
    &&& comps.len() >= 4 ==> has_json_suffix(comps[3]) && (json_stem(comps[3]) == "benchmark"@
        || json_stem(comps[3]) == "estimates"@)
}

/// Decide whether the walk should keep a directory entry, given the
/// components of its path relative to the result root.
///
/// Anything the rule does not recognise — a rendered report, a stale
/// dataset, a file that is not one of the two record kinds — is simply
/// dropped.
pub fn keep_entry(components: &Vec<String>, filter: &GroupFilter) -> (r: bool)
    ensures
        r == spec_keep(components@.map_values(|s: String| s@), filter@),
{
    let ghost comps = components@.map_values(|s: String| s@);
    if components.len() >= 1 {
        let c0: &String = &components[0];
        if str_eq(c0.as_str(), "report") {
            return false;
        }
        let name: String = guess_benchmark_name(c0.as_str());
        if !filter.is_match(name.as_str()) {
            return false;
        }
    }
    if components.len() >= 2 {
        let c1: &String = &components[1];
        if str_eq(c1.as_str(), "report") {
            return false;
        }
    }
    if components.len() >= 3 {
        let c2: &String = &components[2];
        if !str_eq(c2.as_str(), "new") {
            return false;
        }
    }
    if components.len() >= 4 {
        let c3: &String = &components[3];
        let chars: Vec<char> = chars_vec(c3.as_str());
        let n: usize = chars.len();
        if n < 5 {
            proof {
                assert(!has_json_suffix(comps[3]));
            }
            return false;
        }
        let ext: String = {
            let mut ext: String = String::new();
            let mut i: usize = n - 5;
            while i < n
                invariant
                    n - 5 <= i <= n,
                    n == chars@.len(),
                    5 <= n,
                    ext@ == chars@.subrange(n - 5, i as int),
                decreases n - i,
            {
                push_char(&mut ext, chars[i]);
                i = i + 1;
                proof {
                    assert(ext@ =~= chars@.subrange(n - 5, i as int));
                }
            }
            ext
        };
        if !str_eq(ext.as_str(), ".json") {
            return false;
        }
        let stem: String = {
            let mut stem: String = String::new();
            let mut i: usize = 0;
            while i < n - 5
                invariant
                    i <= n - 5,
                    n == chars@.len(),
                    5 <= n,
                    stem@ == chars@.subrange(0, i as int),
                decreases n - 5 - i,
            {
                push_char(&mut stem, chars[i]);
                i = i + 1;
                proof {
                    assert(stem@ =~= chars@.subrange(0, i as int));
                }
            }
            stem
        };
        let is_data: bool = str_eq(stem.as_str(), "benchmark") || str_eq(
            stem.as_str(),
            "estimates",
        );
        return is_data;
    }
    true
}

/// The walk keeps the two record files of any benchmark whose recovered
/// group name matches the pattern: with such a path's four components the
/// pruning rule answers "keep".
pub proof fn lemma_filter_keeps_data_files(comps: Seq<Seq<char>>, pattern: Seq<char>)
    requires
        comps.len() == 4,
        comps[0] != "report"@,
        regex_matches(pattern, recover_name(comps[0])),
        comps[1] != "report"@,
        comps[2] == "new"@,
        comps[3] == "benchmark.json"@ || comps[3] == "estimates.json"@,
    ensures
        spec_keep(comps, pattern),
{
    reveal_strlit("benchmark.json");
    reveal_strlit("estimates.json");
    reveal_strlit("benchmark");
    reveal_strlit("estimates");
    reveal_strlit(".json");
    if comps[3] == "benchmark.json"@ {
        assert(comps[3].subrange(comps[3].len() - 5, comps[3].len() as int) =~= ".json"@);
        assert(json_stem(comps[3]) =~= "benchmark"@);
    } else {
        assert(comps[3].subrange(comps[3].len() - 5, comps[3].len() as int) =~= ".json"@);
        assert(json_stem(comps[3]) =~= "estimates"@);
    }
}

/// The walk prunes rendered reports at the first two depths and any dataset
/// other than `new`: with such components the pruning rule answers "drop".
pub proof fn lemma_filter_prunes(comps: Seq<Seq<char>>, pattern: Seq<char>)
    requires
        comps.len() >= 1,
        comps[0] == "report"@ || (comps.len() >= 2 && comps[1] == "report"@) || (comps.len() >= 3
            && comps[2] != "new"@),
    ensures
        !spec_keep(comps, pattern),
{
}

} // verus!
