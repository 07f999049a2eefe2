//! Dataset repository conventions: where a ModelScope snapshot lives in the
//! cache, and the `license` field of a repository README's front matter.

use vstd::prelude::*;

use crate::chars::{append_chars, chars_eq_str, chars_of, string_from_chars};
use crate::text::{lines, split_lines, split_once, split_once_chars, trim, trim_chars};
use crate::unicode::{is_whitespace, spec_is_whitespace};

verus! {

/// The character views of a `Result` of strings.
pub open spec fn result_view(r: Result<String, String>) -> Result<Seq<char>, Seq<char>> {
    match r {
        Ok(s) => Ok(s@),
        Err(e) => Err(e@),
    }
}

/// What `serde_json::from_str::<String>` makes of `text`: the decoded string,
/// or the text of the error it reports.
pub uninterp spec fn json_string_parse(text: Seq<char>) -> Result<Seq<char>, Seq<char>>;

/// Trusted: parses `text` as one JSON string with `serde_json::from_str`,
/// returning the decoded string or the error's display text.
#[verifier::external_body]
fn parse_json_string(text: &str) -> (parsed: Result<String, String>)
    ensures
        result_view(parsed) == json_string_parse(text@),
{
    match serde_json::from_str::<String>(text) {
        Ok(value) => Ok(value),
        Err(error) => Err(error.to_string()),
    }
}

/// `''` unescaped to `'`, scanning left to right.
pub open spec fn unescape_single_quotes(s: Seq<char>) -> Seq<char>
    decreases s.len(),
{
    if s.len() == 0 {
        s
    } else if s.len() >= 2 && s[0] == '\'' && s[1] == '\'' {
        seq!['\''] + unescape_single_quotes(s.skip(2))
    } else {
        seq![s[0]] + unescape_single_quotes(s.skip(1))
    }
}

/// The prefix of the error for a malformed double-quoted license.
pub open spec fn invalid_quoted_prefix() -> Seq<char> {
    "license must be a valid quoted string: "@
}

/// The interpretation of a trimmed front-matter license value.
pub open spec fn spec_parse_license_scalar(value: Seq<char>) -> Result<Seq<char>, Seq<char>> {
    if value.len() == 0 || value == "null"@ || value == "~"@ {
        Ok(Seq::empty())
    } else if value[0] == '"' {
        match json_string_parse(value) {
            Ok(s) => Ok(s),
            Err(e) => Err(invalid_quoted_prefix() + e),
        }
    } else if value[0] == '\'' {
        let rest = value.drop_first();
        if rest.len() > 0 && rest.last() == '\'' {
            Ok(unescape_single_quotes(rest.drop_last()))
        } else {
            Err("license must be a valid quoted string"@)
        }
    } else if value[0] == '[' || value[0] == '{' {
        Err("license must be a string"@)
    } else {
        Ok(value)
    }
}

fn unescape_quotes(s: &[char]) -> (out: Vec<char>)
    ensures
        out@ == unescape_single_quotes(s@),
{
    let n = s.len();
    let mut out: Vec<char> = Vec::new();
    let mut i: usize = 0;
    assert(s@.skip(0) =~= s@);
    assert(out@ + unescape_single_quotes(s@) =~= unescape_single_quotes(s@));
    while i < n
        invariant
            n == s@.len(),
            i <= n,
            out@ + unescape_single_quotes(s@.skip(i as int)) == unescape_single_quotes(s@),
        decreases n - i,
    {
        let ghost rest = s@.skip(i as int);
        if n - i >= 2 && s[i] == '\'' && s[i + 1] == '\'' {
            proof {
                assert(rest[0] == s@[i as int] && rest[1] == s@[i + 1]);
                assert(rest.skip(2) =~= s@.skip(i + 2));
                assert(out@.push('\'') + unescape_single_quotes(s@.skip(i + 2)) =~= out@
                    + unescape_single_quotes(rest));
            }
            out.push('\'');
            i = i + 2;
        } else {
            proof {
                assert(rest[0] == s@[i as int]);
                if rest.len() >= 2 {
                    assert(rest[1] == s@[i + 1]);
                }
                assert(rest.skip(1) =~= s@.skip(i + 1));
                assert(out@.push(s@[i as int]) + unescape_single_quotes(s@.skip(i + 1)) =~= out@
                    + unescape_single_quotes(rest));
            }
            out.push(s[i]);
            i = i + 1;
        }
    }
    assert(s@.skip(n as int) =~= Seq::<char>::empty());
    assert(out@ + Seq::<char>::empty() =~= out@);
    out
}

/// Reads a trimmed front-matter license value: empty, `null` and `~` mean
/// none; double quotes follow JSON; single quotes double `''`; a sequence or
/// mapping is refused; anything else is the license itself.
pub fn parse_license_scalar(value: &[char]) -> (parsed: Result<String, String>)
    ensures
        result_view(parsed) == spec_parse_license_scalar(value@),
{
    if value.len() == 0 || chars_eq_str(value, "null") || chars_eq_str(value, "~") {
        let empty = String::new();
        assert(value@.len() == 0 || value@ == "null"@ || value@ == "~"@);
        return Ok(empty);
    }
    assert(value@.len() > 0 && value@ != "null"@ && value@ != "~"@);
    if value[0] == '"' {
        let text = string_from_chars(value);
        return match parse_json_string(text.as_str()) {
            Ok(s) => Ok(s),
            Err(e) => {
                let mut message = chars_of("license must be a valid quoted string: ");
                let detail = chars_of(e.as_str());
                let mut k: usize = 0;
                let ghost prefix = message@;
                while k < detail.len()
                    invariant
                        k <= detail@.len(),
                        message@ == prefix + detail@.take(k as int),
                    decreases detail@.len() - k,
                {
                    proof {
                        assert(detail@.take(k + 1) =~= detail@.take(k as int).push(detail@[k as int]));
                    }
                    message.push(detail[k]);
                    k = k + 1;
                }
                assert(detail@.take(detail@.len() as int) =~= detail@);
                Err(string_from_chars(message.as_slice()))
            },
        };
    }
    if value[0] == '\'' {
        let n = value.len();
        if n >= 2 && value[n - 1] == '\'' {
            let inner = crate::chars::copy_range(value, 1, n - 1);
            assert(inner@ =~= value@.drop_first().drop_last());
            let unescaped = unescape_quotes(inner.as_slice());
            return Ok(string_from_chars(unescaped.as_slice()));
        }
        return Err("license must be a valid quoted string".to_owned());
    }
    if value[0] == '[' || value[0] == '{' {
        return Err("license must be a string".to_owned());
    }
    Ok(string_from_chars(value))
}

/// `"---"`.
pub open spec fn front_matter_delimiter() -> Seq<char> {
    "---"@
}

/// Scans front-matter lines after the opening delimiter, with the license
/// found so far.
pub open spec fn scan_front_matter(lines: Seq<Seq<char>>, license: Option<Seq<char>>) -> Result<
    Seq<char>,
    Seq<char>,
>
    decreases lines.len(),
{
    if lines.len() == 0 {
        Err("README.md front matter is missing its closing delimiter"@)
    } else {
        let line = lines[0];
        let rest = lines.drop_first();
        if trim(line) == front_matter_delimiter() {
            Ok(
                match license {
                    Some(l) => l,
                    None => Seq::empty(),
                },
            )
        } else if line.len() > 0 && spec_is_whitespace(line[0]) {
            scan_front_matter(rest, license)
        } else {
            match split_once(line, ':') {
                None => scan_front_matter(rest, license),
                Some((key, value)) => {
                    if trim(key) != "license"@ {
                        scan_front_matter(rest, license)
                    } else if license is Some {
                        Err("front matter contains more than one license field"@)
                    } else {
                        match spec_parse_license_scalar(trim(value)) {
                            Err(e) => Err(e),
                            Ok(l) => scan_front_matter(rest, Some(l)),
                        }
                    }
                },
            }
        }
    }
}

/// The README text without a leading byte-order mark.
pub open spec fn without_bom(readme: Seq<char>) -> Seq<char> {
    if readme.len() > 0 && readme[0] == '\u{feff}' {
        readme.drop_first()
    } else {
        readme
    }
}

/// The license declared in a README's YAML front matter: empty without front
/// matter or without a license field.
pub open spec fn spec_parse_modelscope_license(readme: Seq<char>) -> Result<Seq<char>, Seq<char>> {
    let all = lines(without_bom(readme));
    if all.len() == 0 || trim(all[0]) != front_matter_delimiter() {
        Ok(Seq::empty())
    } else {
        scan_front_matter(all.drop_first(), None)
    }
}

/// Reads the `license` field of a README's front matter.
pub fn parse_modelscope_license(readme: &str) -> (license: Result<String, String>)
    ensures
        result_view(license) == spec_parse_modelscope_license(readme@),
{
    let chars = chars_of(readme);
    let text = if chars.len() > 0 && chars[0] == '\u{feff}' {
        crate::chars::copy_range(chars.as_slice(), 1, chars.len())
    } else {
        chars
    };
    assert(text@ =~= without_bom(readme@));
    let all = split_lines(text.as_slice());
    let ghost all_spec = lines(without_bom(readme@));
    if all.len() == 0 {
        return Ok(String::new());
    }
    let first = trim_chars(all[0].as_slice());
    if !chars_eq_str(first.as_slice(), "---") {
        return Ok(String::new());
    }
    assert(trim(all_spec[0]) == front_matter_delimiter());
    assert(spec_parse_modelscope_license(readme@) == scan_front_matter(all_spec.drop_first(), None));
    let mut license: Option<String> = None;
    let mut i: usize = 1;
    assert(all_spec.skip(1) =~= all_spec.drop_first());
    while i < all.len()
        invariant
            spec_parse_modelscope_license(readme@) == scan_front_matter(all_spec.drop_first(), None),
            all@.len() == all_spec.len(),
            forall|t: int| 0 <= t < all@.len() ==> #[trigger] all@[t]@ == all_spec[t],
            1 <= i <= all@.len(),
            scan_front_matter(all_spec.skip(i as int), match license {
                Some(l) => Some(l@),
                None => None,
            }) == scan_front_matter(all_spec.drop_first(), None),
        decreases all@.len() - i,
    {
        let line = &all[i];
        let ghost rest = all_spec.skip(i as int);
        let ghost lv: Option<Seq<char>> = match &license {
            Some(l) => Some(l@),
            None => None,
        };
        proof {
            assert(rest[0] == all_spec[i as int]);
            assert(rest.drop_first() =~= all_spec.skip(i + 1));
        }
        let trimmed = trim_chars(line.as_slice());
        if chars_eq_str(trimmed.as_slice(), "---") {
            assert(trim(rest[0]) == front_matter_delimiter());
            assert(scan_front_matter(rest, lv) == Ok::<Seq<char>, Seq<char>>(
                match lv {
                    Some(l) => l,
                    None => Seq::empty(),
                },
            ));
            return match license {
                Some(l) => Ok(l),
                None => Ok(String::new()),
            };
        }
        assert(trim(rest[0]) != front_matter_delimiter());
        if line.len() > 0 && is_whitespace(line[0]) {
            i = i + 1;
            continue;
        }
        assert(!(rest[0].len() > 0 && spec_is_whitespace(rest[0][0])));
        match split_once_chars(line.as_slice(), ':') {
            None => {
                i = i + 1;
            },
            Some((key_raw, value_raw)) => {
                let key = trim_chars(key_raw.as_slice());
                let is_license = chars_eq_str(key.as_slice(), "license");
                assert(is_license == (key@ == "license"@));
                if !is_license {
                    i = i + 1;
                } else if license.is_some() {
                    return Err("front matter contains more than one license field".to_owned());
                } else {
                    let value = trim_chars(value_raw.as_slice());
                    match parse_license_scalar(value.as_slice()) {
                        Err(e) => {
                            assert(split_once(rest[0], ':') == Some((key_raw@, value_raw@)));
                            assert(scan_front_matter(rest, lv) == Err::<Seq<char>, Seq<char>>(e@));
                            return Err(e);
                        },
                        Ok(l) => {
                            license = Some(l);
                            i = i + 1;
                        },
                    }
                }
            },
        }
    }
    proof {
        assert(all_spec.skip(i as int) =~= Seq::<Seq<char>>::empty());
    }
    Err("README.md front matter is missing its closing delimiter".to_owned())
}

/// `component` joined onto `base` as `Path::join` does on Unix: an absolute
/// component replaces the base, otherwise one `/` separates them unless the
/// base is empty or already ends with one.
pub open spec fn join_path(base: Seq<char>, component: Seq<char>) -> Seq<char> {
    if component.len() > 0 && component[0] == '/' {
        component
    } else if base.len() == 0 {
        component
    } else if base.last() == '/' {
        base + component
    } else {
        base + seq!['/'] + component
    }
}

/// `s` with every `/` replaced by `--`.
pub open spec fn slashes_to_dashes(s: Seq<char>) -> Seq<char>
    decreases s.len(),
{
    if s.len() == 0 {
        s
    } else {
        slashes_to_dashes(s.drop_last()) + if s.last() == '/' { seq!['-', '-'] } else { seq![s.last()] }
    }
}

/// Joins `component` onto `base`.
fn join_component(base: &[char], component: &[char]) -> (joined: Vec<char>)
    ensures
        joined@ == join_path(base@, component@),
{
    let mut joined: Vec<char> = Vec::new();
    if component.len() > 0 && component[0] == '/' {
        append_chars(&mut joined, component);
        return joined;
    }
    append_chars(&mut joined, base);
    if base.len() > 0 && base[base.len() - 1] != '/' {
        joined.push('/');
    }
    append_chars(&mut joined, component);
    joined
}

/// Where a ModelScope dataset snapshot lives in the cache:
/// `{cache_dir}/datasets/{repo_id with / as --}/snapshots/{revision}`.
pub fn modelscope_snapshot_path(cache_dir: &str, repo_id: &str, revision: &str) -> (path: String)
    ensures
        path@ == join_path(
            join_path(join_path(join_path(cache_dir@, "datasets"@), slashes_to_dashes(repo_id@)), "snapshots"@),
            revision@,
        ),
{
    let repo = chars_of(repo_id);
    let mut flat: Vec<char> = Vec::new();
    let mut i: usize = 0;
    while i < repo.len()
        invariant
            i <= repo@.len(),
            repo@ == repo_id@,
            flat@ == slashes_to_dashes(repo@.take(i as int)),
        decreases repo@.len() - i,
    {
        assert(repo@.take(i + 1).drop_last() =~= repo@.take(i as int));
        if repo[i] == '/' {
            flat.push('-');
            flat.push('-');
        } else {
            flat.push(repo[i]);
        }
        i = i + 1;
    }
    assert(repo@.take(repo@.len() as int) =~= repo@);
    let base = chars_of(cache_dir);
    let datasets = chars_of("datasets");
    let snapshots = chars_of("snapshots");
    let rev = chars_of(revision);
    let p1 = join_component(base.as_slice(), datasets.as_slice());
    let p2 = join_component(p1.as_slice(), flat.as_slice());
    let p3 = join_component(p2.as_slice(), snapshots.as_slice());
    let p4 = join_component(p3.as_slice(), rev.as_slice());
    string_from_chars(p4.as_slice())
}

/// Why a ModelScope dataset request is refused before anything is fetched.
#[derive(Debug, Clone, Copy, PartialEq, Eq, Structural)]
pub enum ModelScopeRequestError {
    EmptyRepositoryId,
    EmptyRevision,
}

/// The revision a request asks for: the one given, else `master`.
pub open spec fn requested_revision(revision: Option<Seq<char>>) -> Seq<char> {
    match revision {
        Some(r) => r,
        None => seq!['m', 'a', 's', 't', 'e', 'r'],
    }
}

/// Checks a ModelScope dataset request and gives the revision to fetch: a
/// blank repository id is refused first, then a blank revision; a missing
/// revision means `master`.
pub fn modelscope_revision(repo_id: &str, revision: Option<&str>) -> (result: Result<String, ModelScopeRequestError>)
    ensures
        crate::doc::is_blank(repo_id@) ==> result == Err::<String, ModelScopeRequestError>(
            ModelScopeRequestError::EmptyRepositoryId,
        ),
        !crate::doc::is_blank(repo_id@) && crate::doc::is_blank(
            requested_revision(
                match revision {
                    Some(r) => Some(r@),
                    None => None,
                },
            ),
        ) ==> result == Err::<String, ModelScopeRequestError>(ModelScopeRequestError::EmptyRevision),
        !crate::doc::is_blank(repo_id@) && !crate::doc::is_blank(
            requested_revision(
                match revision {
                    Some(r) => Some(r@),
                    None => None,
                },
            ),
        ) ==> (result matches Ok(r) && r@ == requested_revision(
            match revision {
                Some(r) => Some(r@),
                None => None,
            },
        )),
{
    if crate::doc::blank(repo_id) {
        return Err(ModelScopeRequestError::EmptyRepositoryId);
    }
    let chosen = match revision {
        Some(r) => r.to_string(),
        None => string_from_chars(&['m', 'a', 's', 't', 'e', 'r']),
    };
    if crate::doc::blank(chosen.as_str()) {
        return Err(ModelScopeRequestError::EmptyRevision);
    }
    Ok(chosen)
}

} // verus!
