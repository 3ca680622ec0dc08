//! File-level helpers: filename normalization, content hashing, and the
//! staged-file bookkeeping that decides what the next save packs.

use vstd::prelude::*;
use vstd::string::StrSliceExecFns;
use vstd::string::StringExecFns;
use sha2::{Digest, Sha256};
use crate::strutil::{str_eq, chars_to_string, to_hex, hex_of, lemma_hex_len};

verus! {

/// A filename normalized to start with "./"; one already so marked is kept.
pub open spec fn spec_normalize(s: Seq<char>) -> Seq<char> {
    if s.len() >= 2 && s[0] == '.' && s[1] == '/' {
        s
    } else {
        seq!['.', '/'] + s
    }
}

/// Prefixes "./" to a filename unless it already starts with it.
pub fn normalize_filename(filename: String) -> (r: String)
    ensures
        r@ == spec_normalize(filename@),
{
    let len = filename.as_str().unicode_len();
    if len >= 2 {
        let c0 = filename.as_str().get_char(0);
        let c1 = filename.as_str().get_char(1);
        if c0 == '.' && c1 == '/' {
            return filename;
        }
    }
    let mut r = String::from_str("./");
    proof {
        reveal_strlit("./");
        assert(r@ =~= seq!['.', '/']);
    }
    r.append(filename.as_str());
    r
}

/// A name for what hashing returns: the 32-byte SHA-256 digest is a
/// function of the input bytes alone.
pub uninterp spec fn sha256_digest(data: Seq<u8>) -> Seq<u8>;

/// Relies on sha2's Sha256 through the Digest trait: the digest is exactly
/// 32 bytes and a function of the input alone.
#[verifier::external_body]
fn sha256_bytes(content: &Vec<u8>) -> (r: Vec<u8>)
    ensures
        r@ == sha256_digest(content@),
        r@.len() == 32,
{
    let mut hasher = Sha256::new();
    Digest::update(&mut hasher, content.as_slice());
    hasher.finalize().to_vec()
}

/// The lowercase-hex rendering of the SHA-256 digest of the bytes: exactly
/// 64 characters, two hex digits per digest byte.
pub fn get_hash(content: &Vec<u8>) -> (r: String)
    ensures
        r@ == hex_of(sha256_digest(content@)),
        r@.len() == 64,
{
    let digest = sha256_bytes(content);
    let hex = to_hex(&digest);
    proof {
        lemma_hex_len(digest@);
    }
    chars_to_string(&hex)
}

/// The mathematical content of one staging entry.
pub ghost struct StagedFileModel {
    pub filename: Seq<char>,
    pub hash: Seq<char>,
}

/// One entry of the staging list: a filename and the content hash it had
/// when staged.
#[derive(Ord, PartialOrd, Eq, PartialEq, Debug)]
pub struct StagedFile {
    pub filename: String,
    pub hash: String,
}

impl View for StagedFile {
    type V = StagedFileModel;

    open spec fn view(&self) -> StagedFileModel {
        StagedFileModel { filename: self.filename@, hash: self.hash@ }
    }
}

pub open spec fn staged_models(s: Seq<StagedFile>) -> Seq<StagedFileModel> {
    Seq::new(s.len(), |i: int| s[i]@)
}

/// The staging list with the first entry of the given filename removed.
pub open spec fn remove_first(s: Seq<StagedFileModel>, name: Seq<char>) -> Seq<StagedFileModel>
    decreases s.len(),
{
    if s.len() == 0 {
        s
    } else if s.first().filename == name {
        s.drop_first()
    } else {
        seq![s.first()] + remove_first(s.drop_first(), name)
    }
}

/// The staging list after unstaging each named file in order.
pub open spec fn spec_unstage(s: Seq<StagedFileModel>, names: Seq<Seq<char>>) -> Seq<
    StagedFileModel,
>
    decreases names.len(),
{
    if names.len() == 0 {
        s
    } else {
        spec_unstage(remove_first(s, names.first()), names.drop_first())
    }
}

/// Removing the first occurrence at index i equals dropping that index.
proof fn lemma_remove_first_at(s: Seq<StagedFileModel>, name: Seq<char>, i: int)
    requires
        0 <= i < s.len(),
        forall|j: int| 0 <= j < i ==> (#[trigger] s[j]).filename != name,
        s[i].filename == name,
    ensures
        remove_first(s, name) == s.remove(i),
    decreases i,
{
    if i == 0 {
        assert(remove_first(s, name) == s.drop_first());
        assert(s.drop_first() =~= s.remove(0));
    } else {
        assert(forall|j: int|
            0 <= j < i - 1 ==> (#[trigger] s.drop_first()[j]).filename != name && s.drop_first()[j]
                == s[j + 1]);
        assert(s.drop_first()[i - 1] == s[i]);
        lemma_remove_first_at(s.drop_first(), name, i - 1);
        assert(seq![s.first()] + s.drop_first().remove(i - 1) =~= s.remove(i));
    }
}

/// A list with no entry of that name is unchanged by removal.
proof fn lemma_remove_first_none(s: Seq<StagedFileModel>, name: Seq<char>)
    requires
        forall|j: int| 0 <= j < s.len() ==> (#[trigger] s[j]).filename != name,
    ensures
        remove_first(s, name) == s,
    decreases s.len(),
{
    if s.len() > 0 {
        assert(forall|j: int|
            0 <= j < s.len() - 1 ==> (#[trigger] s.drop_first()[j]).filename != name
                && s.drop_first()[j] == s[j + 1]);
        lemma_remove_first_none(s.drop_first(), name);
        assert(seq![s.first()] + s.drop_first() =~= s);
    }
}

/// Removes the first staging entry bearing `name`, if one is there.
fn remove_first_exec(staged: &mut Vec<StagedFile>, name: &String)
    ensures
        staged_models(final(staged)@) == remove_first(staged_models(old(staged)@), name@),
{
    let ghost s0 = staged_models(staged@);
    let mut j: usize = 0;
    while j < staged.len()
        invariant
            staged_models(staged@) == s0,
            staged_models(old(staged)@) == s0,
            j <= staged@.len(),
            forall|k: int| 0 <= k < j ==> (#[trigger] s0[k]).filename != name@,
        decreases staged@.len() - j,
    {
        proof {
            assert(s0[j as int] == staged@[j as int]@);
        }
        if str_eq(staged[j].filename.as_str(), name.as_str()) {
            let ghost before = staged@;
            staged.remove(j);
            proof {
                lemma_remove_first_at(s0, name@, j as int);
                assert(staged@ == before.remove(j as int));
                assert forall|k: int| 0 <= k < staged@.len() implies staged_models(staged@)[k]
                    == s0.remove(j as int)[k] by {
                    if k < j {
                        assert(staged@[k] == before[k]);
                        assert(s0.remove(j as int)[k] == s0[k]);
                        assert(s0[k] == before[k]@);
                    } else {
                        assert(staged@[k] == before[k + 1]);
                        assert(s0.remove(j as int)[k] == s0[k + 1]);
                        assert(s0[k + 1] == before[k + 1]@);
                    }
                }
                assert(staged_models(staged@) =~= s0.remove(j as int));
            }
            return ;
        }
        j = j + 1;
    }
    proof {
        lemma_remove_first_none(s0, name@);
    }
}

/// Removes each named file's first staging entry, in order: what remains is
/// the staging list to write back.
pub fn unstage(staged: Vec<StagedFile>, files: Vec<String>) -> (r: Vec<StagedFile>)
    ensures
        staged_models(r@) == spec_unstage(
            staged_models(staged@),
            Seq::new(files@.len(), |i: int| files@[i]@),
        ),
{
    let ghost names = Seq::new(files@.len(), |i: int| files@[i]@);
    let ghost s0 = staged_models(staged@);
    let mut staged = staged;
    let mut i: usize = 0;
    proof {
        assert(names.skip(0) =~= names);
    }
    while i < files.len()
        invariant
            i <= files@.len(),
            names == Seq::new(files@.len(), |j: int| files@[j]@),
            spec_unstage(staged_models(staged@), names.skip(i as int)) == spec_unstage(s0, names),
        decreases files@.len() - i,
    {
        proof {
            assert(names.skip(i as int).first() == names[i as int]);
            assert(names.skip(i as int).drop_first() =~= names.skip(i + 1));
        }
        remove_first_exec(&mut staged, &files[i]);
        i = i + 1;
    }
    proof {
        assert(names.skip(files@.len() as int) =~= Seq::<Seq<char>>::empty());
    }
    staged
}

/// The staging list after the scan for one file: an entry whose stored hash
/// equals the file's current hash is kept as is; otherwise an entry bearing
/// the filename takes the new hash.
pub open spec fn stage_scan(
    s: Seq<StagedFileModel>,
    name: Seq<char>,
    hash: Seq<char>,
) -> Seq<StagedFileModel> {
    s.map_values(
        |e: StagedFileModel|
            if e.hash == hash {
                e
            } else if e.filename == name {
                StagedFileModel { filename: e.filename, hash: hash }
            } else {
                e
            },
    )
}

/// Whether the scan claimed the file: some entry already had its hash, or
/// some entry bore its name.
pub open spec fn stage_found(s: Seq<StagedFileModel>, name: Seq<char>, hash: Seq<char>) -> bool {
    exists|j: int| 0 <= j < s.len() && ((#[trigger] s[j]).hash == hash || s[j].filename == name)
}

/// The staging list after staging one file with its current content hash.
pub open spec fn spec_stage_update(
    s: Seq<StagedFileModel>,
    name: Seq<char>,
    hash: Seq<char>,
) -> Seq<StagedFileModel> {
    if stage_found(s, name, hash) {
        stage_scan(s, name, hash)
    } else {
        stage_scan(s, name, hash).push(StagedFileModel { filename: name, hash: hash })
    }
}

/// Stages one file: entries with its current hash are left alone, entries
/// bearing its name take the new hash, and a file claimed by no entry is
/// appended as a new one.
pub fn stage_update(staged: Vec<StagedFile>, filename: &String, hash: &String) -> (r: Vec<
    StagedFile,
>)
    ensures
        staged_models(r@) == spec_stage_update(staged_models(staged@), filename@, hash@),
{
    let ghost s0 = staged_models(staged@);
    let mut staged = staged;
    let mut added = false;
    let mut j: usize = 0;
    while j < staged.len()
        invariant
            j <= staged@.len(),
            staged@.len() == s0.len(),
            forall|k: int| j <= k < s0.len() ==> staged@[k]@ == s0[k],
            forall|k: int|
                0 <= k < j ==> staged@[k]@ == stage_scan(s0, filename@, hash@)[k],
            added == stage_found(s0.take(j as int), filename@, hash@),
        decreases staged@.len() - j,
    {
        proof {
            assert(staged@[j as int]@ == s0[j as int]);
        }
        let hash_eq = str_eq(staged[j].hash.as_str(), hash.as_str());
        let name_eq = str_eq(staged[j].filename.as_str(), filename.as_str());
        if hash_eq {
            added = true;
        } else if name_eq {
            added = true;
            let mut entry = staged.remove(j);
            entry.hash = hash.clone();
            staged.insert(j, entry);
        }
        proof {
            let t0 = s0.take(j as int);
            let t1 = s0.take(j + 1);
            assert(t1 =~= t0.push(s0[j as int]));
            assert(t1[j as int] == s0[j as int]);
            if hash_eq || name_eq {
                assert(s0[j as int].hash == hash@ || s0[j as int].filename == filename@);
                assert(stage_found(t1, filename@, hash@));
            } else {
                assert(s0[j as int].hash != hash@ && s0[j as int].filename != filename@);
                if stage_found(t1, filename@, hash@) {
                    let w = choose|w: int|
                        0 <= w < t1.len() && ((#[trigger] t1[w]).hash == hash@ || t1[w].filename
                            == filename@);
                    if w < j {
                        assert(t0[w] == t1[w]);
                        assert(stage_found(t0, filename@, hash@));
                    } else {
                        assert(t1[w] == s0[j as int]);
                        assert(false);
                    }
                }
                if stage_found(t0, filename@, hash@) {
                    let w = choose|w: int|
                        0 <= w < t0.len() && ((#[trigger] t0[w]).hash == hash@ || t0[w].filename
                            == filename@);
                    assert(t1[w] == t0[w]);
                    assert(stage_found(t1, filename@, hash@));
                }
            }
        }
        j = j + 1;
    }
    proof {
        assert(s0.take(s0.len() as int) =~= s0);
    }
    if !added {
        staged.push(StagedFile { filename: filename.clone(), hash: hash.clone() });
    }
    proof {
        assert(staged_models(staged@) =~= spec_stage_update(s0, filename@, hash@));
    }
    staged
}

/// The characters after the last newline of s (all of s when it has none).
pub open spec fn suffix_after_newline(s: Seq<char>) -> Seq<char>
    decreases s.len(),
{
    if s.len() == 0 {
        Seq::empty()
    } else if s.last() == '\n' {
        Seq::empty()
    } else {
        suffix_after_newline(s.drop_last()).push(s.last())
    }
}

/// The last line of a text, as line iteration yields it: the text after
/// the final newline, or -- when the text ends with a newline -- the piece
/// between the previous newline and it. An empty text has no last line.
pub open spec fn spec_last_line(s: Seq<char>) -> Option<Seq<char>> {
    if s.len() == 0 {
        None
    } else if s.last() == '\n' {
        Some(suffix_after_newline(s.drop_last()))
    } else {
        Some(suffix_after_newline(s))
    }
}

/// With no newline at or after `start` and one just before it, the suffix
/// after the last newline is exactly the tail from `start`.
proof fn lemma_suffix_after(t: Seq<char>, start: int)
    requires
        0 <= start <= t.len(),
        forall|j: int| start <= j < t.len() ==> t[j] != '\n',
        start > 0 ==> t[start - 1] == '\n',
    ensures
        suffix_after_newline(t) == t.subrange(start, t.len() as int),
    decreases t.len(),
{
    if t.len() == 0 {
        assert(t.subrange(0, 0) =~= Seq::<char>::empty());
    } else if t.len() == start {
        assert(t.last() == '\n');
        assert(t.subrange(start, t.len() as int) =~= Seq::<char>::empty());
    } else {
        assert(t.last() != '\n');
        assert(forall|j: int|
            start <= j < t.len() - 1 ==> #[trigger] t.drop_last()[j] == t[j]);
        if start > 0 {
            assert(t.drop_last()[start - 1] == t[start - 1]);
        }
        lemma_suffix_after(t.drop_last(), start);
        assert(t.subrange(start, t.len() as int) =~= t.drop_last().subrange(
            start,
            t.len() - 1,
        ).push(t.last()));
    }
}

/// The last line of a text: what line iteration would yield last, or
/// nothing for an empty text. The head of the history log is the last
/// line of the history file.
pub fn last_line(contents: &str) -> (r: Option<String>)
    ensures
        match r {
            Some(t) => spec_last_line(contents@) == Some(t@),
            None => spec_last_line(contents@) is None,
        },
{
    let ghost s = contents@;
    let n = contents.unicode_len();
    if n == 0 {
        return None;
    }
    let mut chars: Vec<char> = Vec::new();
    let mut k: usize = 0;
    while k < n
        invariant
            n == s.len(),
            s == contents@,
            k <= n,
            chars@ =~= s.subrange(0, k as int),
        decreases n - k,
    {
        chars.push(contents.get_char(k));
        proof {
            assert(chars@ =~= s.subrange(0, k + 1));
        }
        k = k + 1;
    }
    proof {
        assert(chars@ =~= s);
    }
    let end: usize = if chars[n - 1] == '\n' {
        n - 1
    } else {
        n
    };
    let mut start: usize = end;
    while start > 0 && chars[start - 1] != '\n'
        invariant
            n == s.len(),
            chars@ == s,
            end <= n,
            start <= end,
            forall|j: int| start <= j < end ==> s[j] != '\n',
        decreases start,
    {
        start = start - 1;
    }
    let mut out: Vec<char> = Vec::new();
    let mut t: usize = start;
    while t < end
        invariant
            n == s.len(),
            chars@ == s,
            end <= n,
            start <= t <= end,
            out@ =~= s.subrange(start as int, t as int),
        decreases end - t,
    {
        out.push(chars[t]);
        proof {
            assert(out@ =~= s.subrange(start as int, t + 1));
        }
        t = t + 1;
    }
    proof {
        let tail = s.subrange(0, end as int);
        assert(forall|j: int| start <= j < end ==> #[trigger] tail[j] == s[j]);
        if start > 0 {
            assert(tail[start - 1] == s[start - 1]);
        }
        lemma_suffix_after(tail, start as int);
        if end < n {
            assert(s.last() == '\n');
            assert(tail =~= s.drop_last());
        } else {
            assert(s.last() != '\n');
            assert(tail =~= s);
        }
        assert(tail.subrange(start as int, end as int) =~= s.subrange(
            start as int,
            end as int,
        ));
        assert(out@ == suffix_after_newline(tail));
    }
    Some(crate::strutil::chars_to_string(&out))
}

} // verus!
