//! Which documents carry embedded audio, and under which file names it is
//! exported: `{audio_id}.{extension}`, or `{audio_id}_{n}.{extension}` with
//! the smallest `n` that makes the name unused.

use vstd::prelude::*;
use vstd::relations::injective_on;
use vstd::set_lib::{lemma_int_range, lemma_len_subset, lemma_map_size, set_int_range};

use crate::audio::{detect_extension, extension_of_container, spec_sniff_container, AudioSource};
use crate::chars::{append_chars, chars_eq, chars_of, decimal_chars, decimal_digits, digit_char, string_from_chars};
use crate::doc::Audio;
use crate::text::trim;

verus! {

/// How many documents an export wrote and how many it skipped.
#[derive(Debug, Clone, Copy, PartialEq, Eq, Structural)]
pub struct ExtractAudioSummary {
    pub extracted: usize,
    pub skipped: usize,
}

/// A file to write: the position of the document and the file name.
#[derive(Debug, Clone, PartialEq, Eq)]
pub struct PlannedFile {
    pub index: usize,
    pub filename: String,
}

/// The export extension of a source with embedded audio: the sniffed
/// container's for encoded bytes, `pcm` for raw PCM; paths, URLs and base64
/// text have none.
pub open spec fn embedded_extension(source: AudioSource) -> Option<Seq<char>> {
    match source {
        AudioSource::EncodedBytes(bytes) => Some(extension_of_container(spec_sniff_container(bytes@))),
        AudioSource::PcmS16Le { .. } => Some(seq!['p', 'c', 'm']),
        _ => None,
    }
}

/// The `k`-th file name tried: `{stem}.{ext}`, then `{stem}_{k}.{ext}`.
pub open spec fn candidate(stem: Seq<char>, ext: Seq<char>, k: nat) -> Seq<char> {
    if k == 0 {
        stem + seq!['.'] + ext
    } else {
        stem + seq!['_'] + decimal_digits(k) + seq!['.'] + ext
    }
}

/// Whether `k` is the first suffix whose name is not in `used`.
pub open spec fn is_first_free(used: Seq<Seq<char>>, stem: Seq<char>, ext: Seq<char>, k: nat) -> bool {
    &&& !used.contains(candidate(stem, ext, k))
    &&& forall|j: nat| j < k ==> used.contains(#[trigger] candidate(stem, ext, j))
}

/// The first suffix whose name is not in `used`.
pub open spec fn first_free(used: Seq<Seq<char>>, stem: Seq<char>, ext: Seq<char>) -> nat {
    choose|k: nat| is_first_free(used, stem, ext, k)
}

/// The file names planned so far.
pub open spec fn names_of(files: Seq<(nat, Seq<char>)>) -> Seq<Seq<char>> {
    files.map_values(|f: (nat, Seq<char>)| f.1)
}

/// The files an export of `audios` writes, in order: each document with
/// embedded audio gets the first unused name for its id and extension.
pub open spec fn planned_files(audios: Seq<Audio>) -> Seq<(nat, Seq<char>)>
    decreases audios.len(),
{
    if audios.len() == 0 {
        Seq::empty()
    } else {
        let before = planned_files(audios.drop_last());
        match embedded_extension(audios.last().source) {
            None => before,
            Some(ext) => {
                let stem = trim(audios.last().id@);
                before.push(((audios.len() - 1) as nat, candidate(stem, ext, first_free(names_of(before), stem, ext))))
            },
        }
    }
}

/// The views of planned files.
pub open spec fn files_view(files: Seq<PlannedFile>) -> Seq<(nat, Seq<char>)> {
    files.map_values(|f: PlannedFile| (f.index as nat, f.filename@))
}

proof fn lemma_digits_nonempty(v: nat)
    ensures
        decimal_digits(v).len() >= 1,
        v >= 10 ==> decimal_digits(v).len() >= 2,
    decreases v,
{
    if v >= 10 {
        lemma_digits_nonempty(v / 10);
    }
}

/// Different numbers have different decimal representations.
proof fn lemma_digits_injective(a: nat, b: nat)
    requires
        decimal_digits(a) == decimal_digits(b),
    ensures
        a == b,
    decreases a,
{
    lemma_digits_nonempty(a);
    lemma_digits_nonempty(b);
    if a < 10 && b < 10 {
        assert(decimal_digits(a)[0] == digit_char(a));
        assert(decimal_digits(b)[0] == digit_char(b));
    } else if a >= 10 && b >= 10 {
        let da = decimal_digits(a);
        assert(da.last() == digit_char(a % 10));
        assert(decimal_digits(b).last() == digit_char(b % 10));
        assert(da.drop_last() =~= decimal_digits(a / 10));
        assert(decimal_digits(b).drop_last() =~= decimal_digits(b / 10));
        lemma_digits_injective(a / 10, b / 10);
    }
}

/// Different suffixes give different names.
proof fn lemma_candidate_injective(stem: Seq<char>, ext: Seq<char>, a: nat, b: nat)
    requires
        candidate(stem, ext, a) == candidate(stem, ext, b),
    ensures
        a == b,
{
    let s = stem.len() as int;
    if a == 0 && b != 0 {
        assert(candidate(stem, ext, a)[s] == '.');
        assert(candidate(stem, ext, b)[s] == '_');
    } else if a != 0 && b == 0 {
        assert(candidate(stem, ext, a)[s] == '_');
        assert(candidate(stem, ext, b)[s] == '.');
    } else if a != 0 && b != 0 {
        let da = decimal_digits(a);
        let db = decimal_digits(b);
        assert(candidate(stem, ext, a).len() == s + 1 + da.len() + 1 + ext.len());
        assert(candidate(stem, ext, b).len() == s + 1 + db.len() + 1 + ext.len());
        assert(da.len() == db.len());
        assert(candidate(stem, ext, a).subrange(s + 1, s + 1 + da.len()) =~= da);
        assert(candidate(stem, ext, b).subrange(s + 1, s + 1 + db.len()) =~= db);
        lemma_digits_injective(a, b);
    }
}

/// When the first `k` names are all used, `used` holds at least `k` names.
proof fn lemma_used_names_bound(used: Seq<Seq<char>>, stem: Seq<char>, ext: Seq<char>, k: nat)
    requires
        forall|j: nat| j < k ==> used.contains(#[trigger] candidate(stem, ext, j)),
    ensures
        k <= used.len(),
{
    let x = set_int_range(0, k as int);
    let f = |j: int| candidate(stem, ext, j as nat);
    let y = x.map(f);
    lemma_int_range(0, k as int);
    assert(injective_on(f, x)) by {
        assert forall|j1: int, j2: int| x.contains(j1) && x.contains(j2) && #[trigger] f(j1) == #[trigger] f(j2) implies j1
            == j2 by {
            lemma_candidate_injective(stem, ext, j1 as nat, j2 as nat);
        }
    }
    lemma_map_size(x, y, f);
    assert(y.subset_of(used.to_set())) by {
        assert forall|name: Seq<char>| y.contains(name) implies used.to_set().contains(name) by {
            let j = choose|j: int| x.contains(j) && f(j) == name;
            assert(used.contains(candidate(stem, ext, j as nat)));
        }
    }
    vstd::seq_lib::seq_to_set_is_finite(used);
    lemma_len_subset(y, used.to_set());
    used.lemma_cardinality_of_set();
}

/// The first free suffix is the only one.
proof fn lemma_first_free_unique(used: Seq<Seq<char>>, stem: Seq<char>, ext: Seq<char>, k: nat)
    requires
        is_first_free(used, stem, ext, k),
    ensures
        first_free(used, stem, ext) == k,
{
    let c = first_free(used, stem, ext);
    assert(is_first_free(used, stem, ext, c));
    if c < k {
        assert(used.contains(candidate(stem, ext, c)));
    } else if k < c {
        assert(used.contains(candidate(stem, ext, k)));
    }
}

/// Whether `name` is among `used`.
fn name_used(used: &Vec<Vec<char>>, name: &Vec<char>) -> (b: bool)
    ensures
        b == used@.map_values(|v: Vec<char>| v@).contains(name@),
{
    let ghost views = used@.map_values(|v: Vec<char>| v@);
    let mut i: usize = 0;
    while i < used.len()
        invariant
            i <= used@.len(),
            views == used@.map_values(|v: Vec<char>| v@),
            forall|j: int| 0 <= j < i ==> views[j] != name@,
        decreases used@.len() - i,
    {
        if chars_eq(used[i].as_slice(), name.as_slice()) {
            assert(views[i as int] == name@);
            return true;
        }
        i = i + 1;
    }
    false
}

/// The `k`-th candidate name.
fn candidate_name(stem: &Vec<char>, ext: &Vec<char>, k: usize) -> (name: Vec<char>)
    ensures
        name@ == candidate(stem@, ext@, k as nat),
{
    let mut name: Vec<char> = Vec::new();
    append_chars(&mut name, stem.as_slice());
    if k == 0 {
        name.push('.');
    } else {
        name.push('_');
        let digits = decimal_chars(k as u64);
        append_chars(&mut name, digits.as_slice());
        name.push('.');
    }
    append_chars(&mut name, ext.as_slice());
    name
}

/// Plans an export: the files to write, in order, and how many documents
/// have no embedded audio.
pub fn plan_extraction(audios: &[Audio]) -> (plan: (Vec<PlannedFile>, usize))
    ensures
        files_view(plan.0@) == planned_files(audios@),
        plan.1 == audios@.len() - plan.0@.len(),
{
    let mut files: Vec<PlannedFile> = Vec::new();
    let mut used: Vec<Vec<char>> = Vec::new();
    let mut skipped: usize = 0;
    let mut i: usize = 0;
    while i < audios.len()
        invariant
            i <= audios@.len(),
            files_view(files@) == planned_files(audios@.take(i as int)),
            used@.map_values(|v: Vec<char>| v@) == names_of(files_view(files@)),
            used@.len() == files@.len(),
            skipped + files@.len() == i,
        decreases audios@.len() - i,
    {
        let ghost prefix = audios@.take(i as int);
        assert(audios@.take(i + 1).drop_last() =~= prefix);
        assert(audios@.take(i + 1).last() == audios@[i as int]);
        let audio = &audios[i];
        let ext: Option<Vec<char>> = match &audio.source {
            AudioSource::EncodedBytes(bytes) => Some(chars_of(detect_extension(bytes.as_slice()).as_str())),
            AudioSource::PcmS16Le { .. } => Some(vec!['p', 'c', 'm']),
            _ => None,
        };
        match ext {
            None => {
                skipped = skipped + 1;
            },
            Some(ext) => {
                let stem = chars_of(audio.audio_id().as_str());
                let ghost names = names_of(files_view(files@));
                let n_used = used.len();
                let mut k: usize = 0;
                let mut name = candidate_name(&stem, &ext, 0);
                while name_used(&used, &name)
                    invariant
                        used@.map_values(|v: Vec<char>| v@) == names,
                        used@.len() == names.len(),
                        n_used == names.len(),
                        name@ == candidate(stem@, ext@, k as nat),
                        forall|j: nat| j < k ==> names.contains(#[trigger] candidate(stem@, ext@, j)),
                        k <= names.len(),
                    decreases names.len() - k,
                {
                    proof {
                        assert forall|j: nat| j < k + 1 implies names.contains(#[trigger] candidate(stem@, ext@, j)) by {
                            if j == k {
                                assert(candidate(stem@, ext@, j) == name@);
                            }
                        }
                        lemma_used_names_bound(names, stem@, ext@, (k + 1) as nat);
                    }
                    k = k + 1;
                    name = candidate_name(&stem, &ext, k);
                }
                proof {
                    assert(is_first_free(names, stem@, ext@, k as nat));
                    lemma_first_free_unique(names, stem@, ext@, k as nat);
                }
                let ghost before = files@;
                files.push(PlannedFile { index: i, filename: string_from_chars(name.as_slice()) });
                used.push(name);
                proof {
                    assert(files_view(files@) =~= files_view(before).push((i as nat, name@)));
                    assert(names_of(files_view(files@)) =~= names.push(name@));
                }
            },
        }
        i = i + 1;
    }
    assert(audios@.take(audios@.len() as int) =~= audios@);
    (files, skipped)
}

proof fn lemma_first_free_from(used: Seq<Seq<char>>, stem: Seq<char>, ext: Seq<char>, j: nat)
    requires
        forall|i: nat| i < j ==> used.contains(#[trigger] candidate(stem, ext, i)),
    ensures
        is_first_free(used, stem, ext, first_free(used, stem, ext)),
    decreases used.len() + 1 - j,
{
    lemma_used_names_bound(used, stem, ext, j);
    if !used.contains(candidate(stem, ext, j)) {
        assert(is_first_free(used, stem, ext, j));
    } else {
        assert forall|i: nat| i < j + 1 implies used.contains(#[trigger] candidate(stem, ext, i)) by {}
        lemma_used_names_bound(used, stem, ext, j + 1);
        lemma_first_free_from(used, stem, ext, j + 1);
    }
}

/// There always is a free name: the used names cannot cover every suffix.
pub proof fn lemma_first_free_exists(used: Seq<Seq<char>>, stem: Seq<char>, ext: Seq<char>)
    ensures
        is_first_free(used, stem, ext, first_free(used, stem, ext)),
        first_free(used, stem, ext) <= used.len(),
{
    lemma_first_free_from(used, stem, ext, 0);
    let k = first_free(used, stem, ext);
    lemma_used_names_bound(used, stem, ext, k);
}

/// An export never gives two documents the same file name, and it lists
/// the documents in order.
pub proof fn lemma_planned_names_distinct(audios: Seq<Audio>)
    ensures
        forall|i: int, j: int|
            0 <= i < j < planned_files(audios).len() ==> (#[trigger] planned_files(audios)[i]).1 != (#[trigger] planned_files(
                audios,
            )[j]).1 && planned_files(audios)[i].0 < planned_files(audios)[j].0,
        forall|i: int| 0 <= i < planned_files(audios).len() ==> (#[trigger] planned_files(audios)[i]).0 < audios.len(),
    decreases audios.len(),
{
    if audios.len() > 0 {
        let rest = audios.drop_last();
        lemma_planned_names_distinct(rest);
        let before = planned_files(rest);
        match embedded_extension(audios.last().source) {
            None => {},
            Some(ext) => {
                let stem = trim(audios.last().id@);
                let used = names_of(before);
                lemma_first_free_exists(used, stem, ext);
                let name = candidate(stem, ext, first_free(used, stem, ext));
                let all = planned_files(audios);
                assert(all == before.push(((audios.len() - 1) as nat, name)));
                assert forall|i: int, j: int| 0 <= i < j < all.len() implies (#[trigger] all[i]).1 != (#[trigger] all[j]).1
                    && all[i].0 < all[j].0 by {
                    if j == all.len() - 1 {
                        assert(used[i] == before[i].1);
                        assert(used.contains(before[i].1));
                    }
                }
            },
        }
    }
}

} // verus!
