//! File classification and per-entry display fields: the plain metadata
//! record the library works on, the semantic file kind derived from it,
//! human-readable permission triads, and the assembled table row.

use vstd::prelude::*;

use crate::formatting::{
    format_octal_permissions, format_size, format_time, octal_mode_text, size_text,
};
use crate::text::dec_digits;

verus! {

/// Plain snapshot of one filesystem object's metadata: POSIX mode bits,
/// size in bytes, directory and symlink flags, numeric owner ids, and an
/// optional modification time in epoch seconds (absent when unavailable).
#[derive(Clone, Copy, Debug)]
pub struct EntryMeta {
    pub mode: u32,
    pub size: u64,
    pub is_dir: bool,
    pub is_symlink: bool,
    pub uid: u32,
    pub gid: u32,
    pub modified: Option<i64>,
}

/// Whether any of the three execute bits is set.
pub open spec fn spec_is_executable(mode: u32) -> bool {
    mode & 0o111 != 0
}

/// Checks whether a mode grants execute permission to owner, group or
/// other.
pub fn is_executable(mode: u32) -> (r: bool)
    ensures
        r == spec_is_executable(mode),
{
    mode & 0o111 != 0
}

/// The kind text of an entry; directory takes precedence over symlink,
/// which takes precedence over the execute bits.
pub open spec fn file_type_text(meta: EntryMeta) -> Seq<char> {
    if meta.is_dir {
        "Directory"@
    } else if meta.is_symlink {
        "Symlink"@
    } else if spec_is_executable(meta.mode) {
        "Executable"@
    } else {
        "File"@
    }
}

/// Classifies an entry as `"Directory"`, `"Symlink"`, `"Executable"` or
/// `"File"`, in that order of precedence.
pub fn get_file_type(meta: &EntryMeta) -> (r: String)
    ensures
        r@ == file_type_text(*meta),
{
    if meta.is_dir {
        String::from_str("Directory")
    } else if meta.is_symlink {
        String::from_str("Symlink")
    } else if is_executable(meta.mode) {
        String::from_str("Executable")
    } else {
        String::from_str("File")
    }
}

/// The text of one permission triad, by its three bits: the granted
/// subset of Read, Write, Execute in that order, comma-joined, or
/// `"None"` when empty.
pub open spec fn permission_group_text(p: nat) -> Seq<char> {
    let b = p % 8;
    if b == 0 {
        "None"@
    } else if b == 1 {
        "Execute"@
    } else if b == 2 {
        "Write"@
    } else if b == 3 {
        "Write, Execute"@
    } else if b == 4 {
        "Read"@
    } else if b == 5 {
        "Read, Execute"@
    } else if b == 6 {
        "Read, Write"@
    } else {
        "Read, Write, Execute"@
    }
}

/// Formats a three-bit permission group as the comma-joined subset of
/// Read, Write and Execute it grants, or `"None"` when it grants nothing.
pub fn format_permission_group(perm: u32) -> (r: String)
    ensures
        r@ == permission_group_text(perm as nat),
{
    let b = perm % 8;
    if b == 0 {
        String::from_str("None")
    } else if b == 1 {
        String::from_str("Execute")
    } else if b == 2 {
        String::from_str("Write")
    } else if b == 3 {
        String::from_str("Write, Execute")
    } else if b == 4 {
        String::from_str("Read")
    } else if b == 5 {
        String::from_str("Read, Execute")
    } else if b == 6 {
        String::from_str("Read, Write")
    } else {
        String::from_str("Read, Write, Execute")
    }
}

/// The user triad: bits 8 to 6 of the mode.
pub open spec fn user_bits(mode: u32) -> nat {
    ((mode >> 6) & 7) as nat
}

/// The group triad: bits 5 to 3 of the mode.
pub open spec fn group_bits(mode: u32) -> nat {
    ((mode >> 3) & 7) as nat
}

/// The other triad: bits 2 to 0 of the mode.
pub open spec fn other_bits(mode: u32) -> nat {
    (mode & 7) as nat
}

/// The user triad of a mode, as text.
pub fn get_user_permissions(mode: u32) -> (r: String)
    ensures
        r@ == permission_group_text(user_bits(mode)),
{
    format_permission_group((mode >> 6) & 7)
}

/// The group triad of a mode, as text.
pub fn get_group_permissions(mode: u32) -> (r: String)
    ensures
        r@ == permission_group_text(group_bits(mode)),
{
    format_permission_group((mode >> 3) & 7)
}

/// The other triad of a mode, as text.
pub fn get_other_permissions(mode: u32) -> (r: String)
    ensures
        r@ == permission_group_text(other_bits(mode)),
{
    format_permission_group(mode & 7)
}

/// Distinct triad bit patterns always format as distinct text, so a
/// triad's text pins down its three bits exactly.
pub proof fn lemma_permission_group_text_injective(p1: nat, p2: nat)
    requires
        p1 < 8,
        p2 < 8,
        permission_group_text(p1) == permission_group_text(p2),
    ensures
        p1 == p2,
{
    reveal_strlit("None");
    reveal_strlit("Execute");
    reveal_strlit("Write");
    reveal_strlit("Write, Execute");
    reveal_strlit("Read");
    reveal_strlit("Read, Execute");
    reveal_strlit("Read, Write");
    reveal_strlit("Read, Write, Execute");
    assert("None"@.len() == 4);
    assert("Execute"@.len() == 7);
    assert("Write"@.len() == 5);
    assert("Write, Execute"@.len() == 14);
    assert("Read"@.len() == 4);
    assert("Read, Execute"@.len() == 13);
    assert("Read, Write"@.len() == 11);
    assert("Read, Write, Execute"@.len() == 20);
    assert("None"@[0] == 'N');
    assert("Read"@[0] == 'R');
    assert("Execute"@[0] == 'E');
    assert("Read, Execute"@[0] == 'R');
}

/// The three permission triads reconstruct exactly the nine low mode
/// bits, and those are exactly what the octal text's last three digits
/// spell: the two encodings of a mode always agree.
pub proof fn lemma_triads_reconstruct_octal(mode: u32)
    ensures
        user_bits(mode) * 64 + group_bits(mode) * 8 + other_bits(mode) == mode & 0x1ff,
        octal_mode_text(mode as nat).len() >= 3,
        octal_mode_text(mode as nat).last() == crate::text::digit_char(other_bits(mode)),
        octal_mode_text(mode as nat)[octal_mode_text(mode as nat).len() - 2]
            == crate::text::digit_char(group_bits(mode)),
        octal_mode_text(mode as nat)[octal_mode_text(mode as nat).len() - 3]
            == crate::text::digit_char(user_bits(mode)),
{
    assert(((mode >> 6) & 7) * 64 + ((mode >> 3) & 7) * 8 + (mode & 7) == mode & 0x1ff)
        by (bit_vector);
    let m = (mode as nat) % 4096;
    assert(m == mode & 0xfff && m % 8 == (mode & 7) && (m / 8) % 8 == ((mode >> 3) & 7) && (m / 64)
        % 8 == ((mode >> 6) & 7)) by {
        assert((mode & 0xfff) % 8 == (mode & 7) && ((mode & 0xfff) / 8) % 8 == ((mode >> 3) & 7) && (
        (mode & 0xfff) / 64) % 8 == ((mode >> 6) & 7) && mode % 4096 == (mode & 0xfff))
            by (bit_vector);
    };
    reveal_with_fuel(crate::text::oct_digits, 4);
    if m < 8 {
        assert(octal_mode_text(mode as nat) =~= seq!['0', '0'] + crate::text::oct_digits(m));
    }
}

/// Table row for one entry: every column already formatted as plain text.
pub struct FileInfo {
    pub name: String,
    pub file_type: String,
    pub user_perms: String,
    pub group_perms: String,
    pub other_perms: String,
    pub octal: String,
    pub owner: String,
    pub size: String,
    pub modified: String,
}

/// The owner column: the user name, or the decimal uid where the lookup
/// found none, then a slash, then the group name or decimal gid.
pub open spec fn owner_text(
    user: Option<Seq<char>>,
    group: Option<Seq<char>>,
    uid: u32,
    gid: u32,
) -> Seq<char> {
    (match user {
        Some(u) => u,
        None => dec_digits(uid as nat),
    }) + seq!['/'] + (match group {
        Some(g) => g,
        None => dec_digits(gid as nat),
    })
}

/// Relies on users::get_user_by_uid: the user name the machine's user
/// database has for the id, if any.
#[verifier::external_body]
fn lookup_user_name(uid: u32) -> (r: Option<String>) {
    users::get_user_by_uid(uid).map(|u| u.name().to_string_lossy().to_string())
}

/// Relies on users::get_group_by_gid: the group name the machine's user
/// database has for the id, if any.
#[verifier::external_body]
fn lookup_group_name(gid: u32) -> (r: Option<String>) {
    users::get_group_by_gid(gid).map(|g| g.name().to_string_lossy().to_string())
}

/// The view of an optional looked-up name.
pub open spec fn opt_name_view(o: Option<String>) -> Option<Seq<char>> {
    match o {
        Some(n) => Some(n@),
        None => None,
    }
}

/// Joins the two halves of the owner column: each looked-up name as it
/// is, or the raw decimal id where the lookup found none, the two
/// fallbacks independent.
pub fn format_owner(user: Option<String>, group: Option<String>, uid: u32, gid: u32) -> (r: String)
    ensures
        r@ == owner_text(opt_name_view(user), opt_name_view(group), uid, gid),
{
    let ghost uw = opt_name_view(user);
    let ghost gw = opt_name_view(group);
    let u = match user {
        Some(n) => n,
        None => crate::text::u64_to_dec_string(uid as u64),
    };
    let g = match group {
        Some(n) => n,
        None => crate::text::u64_to_dec_string(gid as u64),
    };
    let mut r = u;
    r.append("/");
    r.append(g.as_str());
    proof {
        reveal_strlit("/");
        assert(r@ =~= owner_text(uw, gw, uid, gid));
    }
    r
}

/// Resolves owner ids to `"user/group"` by the machine's user database:
/// exactly `format_owner` over whatever the two lookups returned, so the
/// lookup can never fail the listing.
pub fn get_owner_info(uid: u32, gid: u32) -> (r: String)
    ensures
        exists|u: Option<Seq<char>>, g: Option<Seq<char>>| r@ == owner_text(u, g, uid, gid),
{
    let user = lookup_user_name(uid);
    let group = lookup_group_name(gid);
    let ghost uw = opt_name_view(user);
    let ghost gw = opt_name_view(group);
    let r = format_owner(user, group, uid, gid);
    proof {
        assert(r@ == owner_text(uw, gw, uid, gid));
    }
    r
}

impl FileInfo {
    /// Builds the table row for one entry from its name and plain
    /// metadata: kind, the three triads, octal mode, resolved owner,
    /// scaled size and short timestamp.
    pub fn from_metadata(name: String, meta: &EntryMeta) -> (r: FileInfo)
        ensures
            r.name@ == name@,
            r.file_type@ == file_type_text(*meta),
            r.user_perms@ == permission_group_text(user_bits(meta.mode)),
            r.group_perms@ == permission_group_text(group_bits(meta.mode)),
            r.other_perms@ == permission_group_text(other_bits(meta.mode)),
            r.octal@ == octal_mode_text(meta.mode as nat),
            exists|u: Option<Seq<char>>, g: Option<Seq<char>>|
                r.owner@ == owner_text(u, g, meta.uid, meta.gid),
            r.size@ == size_text(meta.size as nat),
            meta.modified is None ==> r.modified@ == "Unknown"@,
            r.modified@ == "Unknown"@ || r.modified@.len() == 12,
            meta.modified matches Some(s) && crate::formatting::timestamp_renderable(s)
                ==> r.modified@.len() == 12 && r.modified@ != "Unknown"@,
    {
        FileInfo {
            name,
            file_type: get_file_type(meta),
            user_perms: get_user_permissions(meta.mode),
            group_perms: get_group_permissions(meta.mode),
            other_perms: get_other_permissions(meta.mode),
            octal: format_octal_permissions(meta.mode),
            owner: get_owner_info(meta.uid, meta.gid),
            size: format_size(meta.size),
            modified: format_time(&meta.modified),
        }
    }

    /// Whether the row describes a directory.
    pub fn is_directory(&self) -> (r: bool)
        ensures
            r == (self.file_type@ == "Directory"@),
    {
        self.file_type == String::from_str("Directory")
    }

    /// Whether the row describes an executable file.
    pub fn is_executable(&self) -> (r: bool)
        ensures
            r == (self.file_type@ == "Executable"@),
    {
        self.file_type == String::from_str("Executable")
    }

    /// Whether the row's name starts with a dot.
    pub fn is_hidden(&self) -> (r: bool)
        ensures
            r == (self.name@.len() > 0 && self.name@[0] == '.'),
    {
        if self.name.as_str().unicode_len() == 0 {
            false
        } else {
            self.name.as_str().get_char(0) == '.'
        }
    }
}

impl Default for FileInfo {
    /// The degraded row used when an entry's metadata cannot be read: a
    /// plain file with no permissions, zero size and unknown attributes.
    fn default() -> (r: FileInfo)
        ensures
            r.name@ == ""@,
            r.file_type@ == "File"@,
            r.user_perms@ == "None"@,
            r.group_perms@ == "None"@,
            r.other_perms@ == "None"@,
            r.octal@ == "000"@,
            r.owner@ == "unknown/unknown"@,
            r.size@ == "0B"@,
            r.modified@ == "Unknown"@,
    {
        FileInfo {
            name: String::from_str(""),
            file_type: String::from_str("File"),
            user_perms: String::from_str("None"),
            group_perms: String::from_str("None"),
            other_perms: String::from_str("None"),
            octal: String::from_str("000"),
            owner: String::from_str("unknown/unknown"),
            size: String::from_str("0B"),
            modified: String::from_str("Unknown"),
        }
    }
}

} // verus!
