//! Slot identifiers and the paths derived from them.
//!
//! A slot identifier must name exactly one file directly under the
//! save root and must never reference anything outside it: it is
//! non-empty, contains no path separator, and is not a bare `.` or
//! `..` segment. Every keyed operation checks this before a path is
//! derived, so no unchecked identifier ever reaches the filesystem.

use vstd::prelude::*;
use crate::errors::StoreError;

verus! {

/// A character that would split a path into segments on some platform.
pub open spec fn is_path_separator(c: char) -> bool {
    c == '/' || c == '\\'
}

/// The `.` segment (the directory itself).
pub open spec fn dot_seq() -> Seq<char> {
    seq!['.']
}

/// The `..` segment (the parent directory).
pub open spec fn dot_dot_seq() -> Seq<char> {
    seq!['.', '.']
}

/// An identifier that is safe to embed in a file name directly under
/// the save root: non-empty, free of path separators, and not a
/// current- or parent-directory segment.
pub open spec fn valid_identifier(s: Seq<char>) -> bool {
    &&& s.len() > 0
    &&& (forall|i: int| 0 <= i < s.len() ==> !is_path_separator(#[trigger] s[i]))
    &&& s != dot_seq()
    &&& s != dot_dot_seq()
}

/// The fixed extension of every slot file, as characters.
pub open spec fn save_extension() -> Seq<char> {
    seq!['.', 'j', 's', 'o', 'n']
}

/// The file name a slot identifier maps to: the identifier followed by
/// the fixed extension. Total and deterministic, so the same
/// identifier always maps to the same file.
pub open spec fn slot_file_name(id: Seq<char>) -> Seq<char> {
    id + save_extension()
}

/// The suffix that marks the temporary file of an in-flight write.
pub open spec fn temp_suffix() -> Seq<char> {
    seq!['.', 't', 'm', 'p']
}

/// The temporary file a write streams into before it is renamed over
/// the slot file.
pub open spec fn temp_file_name(id: Seq<char>) -> Seq<char> {
    slot_file_name(id) + temp_suffix()
}

/// Joining a directory and an entry name with the portable separator.
pub open spec fn path_join(dir: Seq<char>, name: Seq<char>) -> Seq<char> {
    dir + seq!['/'] + name
}

/// The name of the subdirectory holding the slot files, under the
/// platform data directory.
pub open spec fn saves_dir_name() -> Seq<char> {
    seq!['s', 'a', 'v', 'e', 's']
}

/// The fixed name of the single settings file under the config root.
pub open spec fn settings_file_name() -> Seq<char> {
    seq!['s', 'e', 't', 't', 'i', 'n', 'g', 's', '.', 'j', 's', 'o', 'n']
}

/// Decides `valid_identifier` for a runtime string.
pub fn check_identifier(s: &str) -> (r: bool)
    ensures
        r == valid_identifier(s@),
{
    let n = s.unicode_len();
    if n == 0 {
        return false;
    }
    let mut i: usize = 0;
    while i < n
        invariant
            n == s@.len(),
            0 <= i <= n,
            forall|k: int| 0 <= k < i ==> !is_path_separator(#[trigger] s@[k]),
        decreases n - i,
    {
        let c = s.get_char(i);
        if c == '/' || c == '\\' {
            return false;
        }
        i += 1;
    }
    if n == 1 && s.get_char(0) == '.' {
        proof {
            assert(s@ =~= dot_seq());
        }
        return false;
    }
    if n == 2 && s.get_char(0) == '.' && s.get_char(1) == '.' {
        proof {
            assert(s@ =~= dot_dot_seq());
        }
        return false;
    }
    proof {
        if s@ == dot_seq() {
            assert(s@[0] == '.');
        }
        if s@ == dot_dot_seq() {
            assert(s@[0] == '.' && s@[1] == '.');
        }
    }
    true
}

/// The runtime counterpart of `slot_file_name`.
pub fn slot_file_name_of(id: &str) -> (r: String)
    ensures
        r@ == slot_file_name(id@),
{
    proof {
        reveal_strlit(".json");
        assert(".json"@ =~= save_extension());
    }
    let mut s = String::from_str(id);
    s.append(".json");
    s
}

/// The runtime counterpart of `temp_file_name`.
pub fn temp_file_name_of(id: &str) -> (r: String)
    ensures
        r@ == temp_file_name(id@),
{
    proof {
        reveal_strlit(".tmp");
        assert(".tmp"@ =~= temp_suffix());
    }
    let mut s = slot_file_name_of(id);
    s.append(".tmp");
    s
}

/// The runtime counterpart of `path_join`.
pub fn path_join_of(dir: &str, name: &str) -> (r: String)
    ensures
        r@ == path_join(dir@, name@),
{
    proof {
        reveal_strlit("/");
        assert("/"@ =~= seq!['/']);
    }
    let mut s = String::from_str(dir);
    s.append("/");
    s.append(name);
    proof {
        assert(s@ =~= path_join(dir@, name@));
    }
    s
}

/// The directory holding the slot files, derived from the platform
/// data directory.
pub fn save_dir_path(data_dir: &str) -> (r: String)
    ensures
        r@ == path_join(data_dir@, saves_dir_name()),
{
    proof {
        reveal_strlit("saves");
        assert("saves"@ =~= saves_dir_name());
    }
    path_join_of(data_dir, "saves")
}

/// The absolute path of the file a slot identifier is stored at, or
/// `InvalidIdentifier` for an identifier that could escape the save
/// root. This mapping is total and deterministic over the accepted
/// identifiers.
pub fn get_save_path(save_dir: &str, slot: &str) -> (r: Result<String, StoreError>)
    ensures
        valid_identifier(slot@) ==> r is Ok
            && r->Ok_0@ == path_join(save_dir@, slot_file_name(slot@)),
        !valid_identifier(slot@) ==> r is Err
            && r->Err_0 == StoreError::InvalidIdentifier,
{
    if !check_identifier(slot) {
        return Err(StoreError::InvalidIdentifier);
    }
    let name = slot_file_name_of(slot);
    Ok(path_join_of(save_dir, name.as_str()))
}

/// The absolute path of the in-flight temporary file for a slot, or
/// `InvalidIdentifier` as in `get_save_path`.
pub fn get_temp_path(save_dir: &str, slot: &str) -> (r: Result<String, StoreError>)
    ensures
        valid_identifier(slot@) ==> r is Ok
            && r->Ok_0@ == path_join(save_dir@, temp_file_name(slot@)),
        !valid_identifier(slot@) ==> r is Err
            && r->Err_0 == StoreError::InvalidIdentifier,
{
    if !check_identifier(slot) {
        return Err(StoreError::InvalidIdentifier);
    }
    let name = temp_file_name_of(slot);
    Ok(path_join_of(save_dir, name.as_str()))
}

/// The absolute path of the settings file under the config root.
pub fn get_settings_path(config_dir: &str) -> (r: String)
    ensures
        r@ == path_join(config_dir@, settings_file_name()),
{
    proof {
        reveal_strlit("settings.json");
        assert("settings.json"@ =~= settings_file_name());
    }
    path_join_of(config_dir, "settings.json")
}

/// Whether a directory entry name carries the slot-file extension.
pub open spec fn has_save_extension(name: Seq<char>) -> bool {
    name.len() >= 5 && name.subrange(name.len() - 5, name.len() as int) == save_extension()
}

/// The identifier recovered from a slot file name: the name with the
/// extension stripped.
pub open spec fn stem_of(name: Seq<char>) -> Seq<char> {
    name.subrange(0, name.len() - 5)
}

/// Decides `has_save_extension` for a runtime entry name.
pub fn check_save_extension(name: &str) -> (r: bool)
    ensures
        r == has_save_extension(name@),
{
    let n = name.unicode_len();
    if n < 5 {
        return false;
    }
    let ok = name.get_char(n - 5) == '.' && name.get_char(n - 4) == 'j'
        && name.get_char(n - 3) == 's' && name.get_char(n - 2) == 'o'
        && name.get_char(n - 1) == 'n';
    proof {
        if ok {
            assert(name@.subrange(name@.len() - 5, name@.len() as int) =~= save_extension());
        } else {
            assert(name@.subrange(name@.len() - 5, name@.len() as int) != save_extension()) by {
                if name@.subrange(name@.len() - 5, name@.len() as int) == save_extension() {
                    assert(name@[name@.len() - 5] == save_extension()[0]);
                    assert(name@[name@.len() - 4] == save_extension()[1]);
                    assert(name@[name@.len() - 3] == save_extension()[2]);
                    assert(name@[name@.len() - 2] == save_extension()[3]);
                    assert(name@[name@.len() - 1] == save_extension()[4]);
                }
            }
        }
    }
    ok
}

/// The runtime counterpart of `stem_of`, for names that carry the
/// extension.
pub fn stem_of_name(name: &str) -> (r: String)
    requires
        has_save_extension(name@),
    ensures
        r@ == stem_of(name@),
{
    let n = name.unicode_len();
    let stem = name.substring_char(0, n - 5);
    String::from_str(stem)
}

/// A slot's file name always carries the slot extension, and stripping
/// it recovers the identifier exactly, so writing and listing agree on
/// which slot a file belongs to.
pub proof fn lemma_file_name_round_trip(id: Seq<char>)
    ensures
        has_save_extension(slot_file_name(id)),
        stem_of(slot_file_name(id)) == id,
{
    assert(slot_file_name(id).subrange(
        slot_file_name(id).len() - 5,
        slot_file_name(id).len() as int,
    ) =~= save_extension());
    assert(slot_file_name(id).subrange(0, slot_file_name(id).len() - 5) =~= id);
}

/// A temporary file is never mistaken for a slot file: its name does
/// not carry the slot extension, so an interrupted write can never
/// surface in a listing.
pub proof fn lemma_temp_name_not_a_slot_name(id: Seq<char>)
    ensures
        !has_save_extension(temp_file_name(id)),
{
    let t = temp_file_name(id);
    assert(t[t.len() - 1] == 'p');
    assert(save_extension()[4] == 'n');
    if has_save_extension(t) {
        assert(t.subrange(t.len() - 5, t.len() as int)[4] == t[t.len() - 1]);
    }
}

/// The file name of a valid identifier contains no path separator, so
/// the derived path stays directly under the save root.
pub proof fn lemma_slot_file_name_contained(id: Seq<char>)
    requires
        valid_identifier(id),
    ensures
        forall|i: int| 0 <= i < slot_file_name(id).len()
            ==> !is_path_separator(#[trigger] slot_file_name(id)[i]),
{
    let f = slot_file_name(id);
    assert forall|i: int| 0 <= i < f.len() implies !is_path_separator(#[trigger] f[i]) by {
        if i < id.len() {
            assert(f[i] == id[i]);
        } else {
            assert(f[i] == save_extension()[i - id.len()]);
        }
    }
}

} // verus!
