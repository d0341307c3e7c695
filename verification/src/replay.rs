//! Which finding a replay waits for: the one that the metadata of a crash names.
use vstd::prelude::*;
#[allow(unused_imports)]
use crate::coverage::source_lcov::opt_text;
#[allow(unused_imports)]
use crate::discriminators::opt_string;
use crate::paths::{find_file_name, join_path};
#[allow(unused_imports)]
use crate::paths::{file_name, in_directory, lemma_file_name};
use crate::session::{expect_first_finding, Session};
#[allow(unused_imports)]
use crate::session::{crash_name, first_there, meta_name, opt_strings, SessionView};
use crate::text::copy_str;
#[allow(unused_imports)]
use crate::text::{hex, in_base, repeated, texts};

verus! {

/// A JSON value of `serde_json`.
#[verifier::external_type_specification]
#[verifier::external_body]
pub struct ExJsonValue(serde_json::Value);

/// The JSON value that some bytes hold.
pub uninterp spec fn json_value(bytes: Seq<u8>) -> Option<serde_json::Value>;

/// `serde_json::from_slice` for a `Value`: the JSON value that some bytes hold. What makes bytes JSON is
/// left unsaid.
#[verifier::external_body]
fn parse_json(bytes: &[u8]) -> (r: Option<serde_json::Value>)
    ensures
        r == json_value(bytes@),
{
    serde_json::from_slice::<serde_json::Value>(bytes).ok()
}

/// The member of a JSON object under a key.
pub uninterp spec fn json_member(v: serde_json::Value, key: Seq<char>) -> Option<serde_json::Value>;

/// `serde_json::Value::get` with a text: the member of an object under a key, none where the value is no
/// object or has no such member.
#[verifier::external_body]
fn read_member<'a>(v: &'a serde_json::Value, key: &str) -> (r: Option<&'a serde_json::Value>)
    ensures
        match r {
            Some(m) => json_member(*v, key@) == Some(*m),
            None => json_member(*v, key@) is None,
        },
{
    v.get(key)
}

/// The text that a JSON value is.
pub uninterp spec fn json_string(v: serde_json::Value) -> Option<Seq<char>>;

/// `serde_json::Value::as_str`: the text that a value is, none where it is no text.
#[verifier::external_body]
fn read_string(v: &serde_json::Value) -> (r: Option<String>)
    ensures
        opt_string(r) == json_string(*v),
{
    v.as_str().map(String::from)
}

/// The finding that some metadata names, where they are JSON and name one.
pub open spec fn finding_in(bytes: Seq<u8>) -> Option<Seq<char>> {
    match json_value(bytes) {
        Some(v) => match json_member(v, "mutation_finding_id"@) {
            Some(id) => json_string(id),
            None => None,
        },
        None => None,
    }
}

/// The finding that the bytes of a metadata file name.
pub fn finding_id_in_metadata(bytes: &[u8]) -> (r: Option<String>)
    ensures
        opt_string(r) == finding_in(bytes@),
{
    match parse_json(bytes) {
        Some(v) => match read_member(&v, "mutation_finding_id") {
            Some(id) => read_string(id),
            None => None,
        },
        None => None,
    }
}

/// The findings that some files name; a file that could not be read names none.
pub open spec fn findings_in(files: Seq<Option<Vec<u8>>>) -> Seq<Option<Seq<char>>> {
    Seq::new(
        files.len(),
        |i: int| match files[i] {
            Some(bytes) => finding_in(bytes@),
            None => None,
        },
    )
}

/// Sets the finding that a replay waits for to the first that the metadata files name, in their order.
/// Where none names one, it waits for none.
pub fn load_expected_mutation_finding_id_from_metadata(session: &mut Session, files: &Vec<Option<Vec<u8>>>)
    ensures
        final(session)@ == (SessionView { expected_finding_id: first_there(findings_in(files@)), ..old(session)@ }),
{
    let mut found: Vec<Option<String>> = Vec::new();
    let mut i: usize = 0;
    while i < files.len()
        invariant
            i <= files@.len(),
            found@.len() == i,
            *session == *old(session),
            forall|j: int| 0 <= j < i ==> opt_string(#[trigger] found@[j]) == findings_in(files@)[j],
        decreases files.len() - i,
    {
        let id = match &files[i] {
            Some(bytes) => finding_id_in_metadata(bytes.as_slice()),
            None => None,
        };
        found.push(id);
        i += 1;
    }
    assert(opt_strings(found@) =~= findings_in(files@));
    expect_first_finding(session, &found);
}

/// Where the metadata of an input can stand, in the order in which they are looked for: in the metadata
/// directory where one is set, under the name of the input; and beside the input.
pub open spec fn metadata_paths(input: Seq<char>, meta_dir: Option<Seq<char>>) -> Seq<Seq<char>> {
    let beside = input + ".meta.json"@;
    match (file_name(input), meta_dir) {
        (Some(name), Some(dir)) => seq![in_directory(dir, name + ".meta.json"@), beside],
        _ => seq![beside],
    }
}

/// Where the metadata of an input can stand.
pub fn list_metadata_paths(input_path: &str, meta_dir: Option<&str>) -> (r: Vec<String>)
    ensures
        texts(r@) == metadata_paths(input_path@, opt_text(meta_dir)),
{
    let mut r: Vec<String> = Vec::new();
    if let Some(name) = find_file_name(input_path) {
        if let Some(dir) = meta_dir {
            let mut file = name;
            file.append(".meta.json");
            r.push(join_path(dir, file.as_str()));
        }
    }
    let mut beside = copy_str(input_path);
    beside.append(".meta.json");
    r.push(beside);
    assert(texts(r@) =~= metadata_paths(input_path@, opt_text(meta_dir)));
    r
}

proof fn lemma_digits_are_no_slash(n: nat)
    ensures
        !in_base(n, 16).contains('/'),
    decreases n,
{
    if n >= 16 {
        lemma_digits_are_no_slash(n / 16);
        let s = in_base(n, 16);
        if s.contains('/') {
            let i = choose|i: int| 0 <= i < s.len() && s[i] == '/';
            if i < s.len() - 1 {
                assert(in_base(n / 16, 16)[i] == '/');
            }
        }
    }
}

proof fn lemma_crash_name(hash: u64)
    ensures
        !crash_name(hash).contains('/'),
        crash_name(hash).len() > 2,
{
    reveal_strlit("crash_");
    let digits = hex(hash as nat);
    lemma_digits_are_no_slash(hash as nat);
    let name = crash_name(hash);
    if name.contains('/') {
        let i = choose|i: int| 0 <= i < name.len() && name[i] == '/';
        let zeros = repeated('0', 16 - digits.len());
        if i >= 6 + zeros.len() {
            assert(digits[i - 6 - zeros.len()] == '/');
        }
    }
}

/// The metadata of a crash are looked for first where they were written: in the metadata directory, where
/// one is set that is not empty, but for a slash that is doubled where the directory ends with one; and
/// beside the input where none is set.
pub proof fn lemma_metadata_is_found(crash_dir: Seq<char>, meta_dir: Option<Seq<char>>, hash: u64)
    requires
        meta_dir is Some ==> meta_dir->0.len() > 0,
    ensures
        match meta_dir {
            Some(dir) => {
                let found = metadata_paths(crash_dir + "/"@ + crash_name(hash), meta_dir)[0];
                let written = meta_name(dir, crash_name(hash));
                if dir.last() == '/' {
                    written == dir + "/"@ + found.skip(dir.len() as int) && found.take(dir.len() as int) == dir
                } else {
                    written == found
                }
            },
            None => metadata_paths(crash_dir + "/"@ + crash_name(hash), None)[0] == meta_name(crash_dir, crash_name(hash)),
        },
{
    let name = crash_name(hash);
    lemma_crash_name(hash);
    lemma_file_name(crash_dir, name);
    match meta_dir {
        Some(dir) => {
            let found = in_directory(dir, name + ".meta.json"@);
            if dir.last() == '/' {
                assert(found.skip(dir.len() as int) =~= name + ".meta.json"@);
                assert(found.take(dir.len() as int) =~= dir);
                assert(meta_name(dir, name) =~= dir + "/"@ + (name + ".meta.json"@));
            } else {
                assert(found =~= meta_name(dir, name));
            }
        },
        None => {
            assert(crash_dir + "/"@ + name + ".meta.json"@ =~= meta_name(crash_dir, name));
        },
    }
}

/// The metadata that are written beside an input with a name of its own are among those that are looked
/// for, last.
pub proof fn lemma_metadata_beside(crash_dir: Seq<char>, id: Seq<char>, meta_dir: Option<Seq<char>>)
    ensures
        metadata_paths(crash_dir + "/"@ + id, meta_dir).last() == meta_name(crash_dir, id),
{
}

} // verus!
