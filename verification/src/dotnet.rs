//! The .NET runtime of a wine prefix: what its registry says of it, whether a
//! trainer can run on it, and what has to be carried over to repair it.

use crate::paths;
use crate::text;
use vstd::prelude::*;
use vstd::slice::slice_subrange;
use vstd::utf8;

verus! {

// ---------------------------------------------------------------------------
// Reading the registry
// ---------------------------------------------------------------------------

/// The registry section that holds the version of the .NET Framework 4.
pub const FULL_SECTION: &'static str =
    "[Software\\\\Microsoft\\\\NET Framework Setup\\\\NDP\\\\v4\\\\Full]";

/// What the line with the version of the .NET Framework 4 begins with.
pub const RELEASE_PREFIX: &'static str = "\"Release\"=dword:";

/// Whether a line of the registry file opens a section.
pub open spec fn is_header(line: Seq<char>) -> bool {
    line.len() > 0 && line[0] == '['
}

/// The line that opened the section in which line `at` stands, if there is one.
pub open spec fn section_at(file: Seq<Seq<char>>, at: int) -> Option<Seq<char>>
    decreases at,
{
    if at <= 0 {
        None
    } else if is_header(file[at - 1]) {
        Some(file[at - 1])
    } else {
        section_at(file, at - 1)
    }
}

/// Whether line `at` gives the version: a release line, in the section of the
/// .NET Framework 4.
pub open spec fn is_release_line(file: Seq<Seq<char>>, at: int) -> bool {
    &&& !is_header(file[at])
    &&& RELEASE_PREFIX@.is_prefix_of(file[at])
    &&& section_at(file, at) matches Some(header) && FULL_SECTION@.is_prefix_of(header)
}

/// The version that a release line gives: the hexadecimal number behind the prefix.
pub open spec fn release_on(line: Seq<char>) -> Option<u32> {
    match text::number_in(text::trimmed(line.skip(RELEASE_PREFIX@.len() as int)), 16, u32::MAX as int) {
        Some(value) => Some(value as u32),
        None => None,
    }
}

/// The version that the first release line at or after line `from` gives.
pub open spec fn release_from(file: Seq<Seq<char>>, from: int) -> Option<u32>
    decreases file.len() - from,
{
    if from >= file.len() {
        None
    } else if is_release_line(file, from) {
        release_on(file[from])
    } else {
        release_from(file, from + 1)
    }
}

/// The version of the .NET Framework 4 that a registry file gives: the first
/// release line decides, also where no number can be read from it.
pub open spec fn release_in(text: Seq<char>) -> Option<u32> {
    release_from(text::lines(text), 0)
}

/// Reads the version (`Release`) of the .NET Framework 4 from the text of a
/// prefix's `system.reg`. This is what tells 4.8 from 4.0: both live in the
/// same `v4.0.30319` directory.
pub fn parse_dotnet_release(text: &str) -> (release: Option<u32>)
    ensures
        release == release_in(text@),
{
    let chars = text::chars_of(text);
    let file = text::split_lines(&chars);
    let section = text::chars_of(FULL_SECTION);
    let prefix = text::chars_of(RELEASE_PREFIX);
    let ghost all = text::lines(text@);
    let mut in_full = false;
    for i in 0..file.len()
        invariant
            text::views(file@) == all,
            all == text::lines(text@),
            section@ == FULL_SECTION@,
            prefix@ == RELEASE_PREFIX@,
            in_full == (section_at(all, i as int) matches Some(header)
                && FULL_SECTION@.is_prefix_of(header)),
            release_in(text@) == release_from(all, i as int),
    {
        let line = file[i];
        assert(line@ == all[i as int]);
        if line.len() > 0 && line[0] == '[' {
            in_full = text::starts_with(line, &section);
            assert(section_at(all, i + 1) == Some(line@));
        } else if in_full && text::starts_with(line, &prefix) {
            let digits = text::trim(slice_subrange(line, prefix.len(), line.len()));
            assert(line@.subrange(prefix@.len() as int, line@.len() as int) == line@.skip(
                prefix@.len() as int,
            ));
            return match text::parse_number(digits, 16, u32::MAX as u64) {
                Some(value) => Some(value as u32),
                None => None,
            };
        }
    }
    None
}

// ---------------------------------------------------------------------------
// What a prefix holds
// ---------------------------------------------------------------------------

/// The mark that wine puts into a DLL of its own that stands in for a real one.
pub const WINE_BUILTIN_DLL_MARKER: &'static str = "Wine builtin DLL";

/// How much of a DLL is looked at: the mark sits right behind the DOS header.
pub const DLL_HEAD_BYTES: usize = 1024;

/// The `Release` value of the .NET Framework 4.6.2, the least that trainers
/// of today accept. Older ones run on 4.0, so a prefix can do for one game and
/// not for another.
pub const DOTNET_462_RELEASE: u32 = 394802;

/// How the names of the C runtime libraries end that `clr.dll` links against.
/// The installer puts them into `system32`, and without them the runtime does
/// not load.
pub const CLR_CRT_SUFFIX: &'static str = "_clr0400.dll";

/// The library through which trainers load the runtime.
pub const MSCOREE: &'static str = "mscoree.dll";

/// Where the runtime itself lies in a prefix.
pub const CLR_DLL: &'static str =
    "drive_c/windows/Microsoft.NET/Framework64/v4.0.30319/clr.dll";

/// Where the system libraries lie in a prefix.
pub const SYSTEM32: &'static str = "drive_c/windows/system32";

/// Where the registry lies in a prefix.
pub const SYSTEM_REG: &'static str = "system.reg";

/// Everything that has to be so for a trainer of today to run.
#[derive(Clone, Copy, Debug, PartialEq, Eq, Structural)]
pub struct DotnetStatus {
    pub clr_present: bool,
    pub mscoree_native: bool,
    pub crt_present: bool,
    pub release: Option<u32>,
}

impl DotnetStatus {
    /// Whether a trainer of today can run: the four things can each be missing
    /// without the others.
    pub open spec fn usable(self) -> bool {
        &&& self.clr_present
        &&& self.mscoree_native
        &&& self.crt_present
        &&& self.release matches Some(release) && release >= DOTNET_462_RELEASE
    }

    /// Whether a trainer of today can run.
    pub fn is_usable(&self) -> (usable: bool)
        ensures
            usable == self.usable(),
            usable <==> self.clr_present && self.mscoree_native && self.crt_present && self.release
                is Some && self.release->0 >= 394802,
    {
        self.clr_present && self.mscoree_native && self.crt_present && match self.release {
            Some(release) => release >= DOTNET_462_RELEASE,
            None => false,
        }
    }
}

/// The files and directories of a prefix on which the status of .NET depends.
pub struct DotnetPaths {
    pub clr: String,
    pub mscoree: String,
    pub system32: String,
    pub system_reg: String,
}

/// The files and directories of the prefix `prefix` on which the status of
/// .NET depends.
pub fn dotnet_paths(prefix: &str) -> (found: DotnetPaths)
    ensures
        found.clr@ == paths::joined_path(prefix@, CLR_DLL@),
        found.system32@ == paths::joined_path(prefix@, SYSTEM32@),
        found.mscoree@ == paths::joined_path(found.system32@, MSCOREE@),
        found.system_reg@ == paths::joined_path(prefix@, SYSTEM_REG@),
        found.clr@ == paths::joined_path(
            prefix@,
            "drive_c/windows/Microsoft.NET/Framework64/v4.0.30319/clr.dll"@,
        ),
        found.system32@ == paths::joined_path(prefix@, "drive_c/windows/system32"@),
        found.mscoree@ == paths::joined_path(found.system32@, "mscoree.dll"@),
        found.system_reg@ == paths::joined_path(prefix@, "system.reg"@),
{
    let system32 = paths::join_path(prefix, SYSTEM32);
    DotnetPaths {
        clr: paths::join_path(prefix, CLR_DLL),
        mscoree: paths::join_path(&system32, MSCOREE),
        system32,
        system_reg: paths::join_path(prefix, SYSTEM_REG),
    }
}

/// What was found at the paths of [`dotnet_paths`]: whether `clr` and `mscoree`
/// are files, the first bytes of `mscoree`, the names in `system32` (`None` for
/// one that is no text) and the text of `system_reg`, each where it could be read.
pub struct DotnetProbe {
    pub clr_is_file: bool,
    pub mscoree_is_file: bool,
    pub mscoree_head: Option<Vec<u8>>,
    pub system32_names: Option<Vec<Option<String>>>,
    pub system_reg: Option<String>,
}

/// The first bytes of a DLL, as many as are looked at.
pub open spec fn dll_head(bytes: Seq<u8>) -> Seq<u8> {
    if bytes.len() <= DLL_HEAD_BYTES {
        bytes
    } else {
        bytes.take(DLL_HEAD_BYTES as int)
    }
}

/// Whether the first bytes of a DLL hold the mark of one that wine put there.
pub open spec fn is_builtin(bytes: Seq<u8>) -> bool {
    text::occurs(dll_head(bytes), utf8::encode_utf8(WINE_BUILTIN_DLL_MARKER@))
}

/// Whether a file is a DLL of wine's own that stands in for a real one, by its
/// first bytes. One that could not be read is taken for a real one.
pub fn is_wine_builtin_dll(head: Option<&[u8]>) -> (builtin: bool)
    ensures
        builtin == (head matches Some(bytes) && is_builtin(bytes@)),
{
    match head {
        None => false,
        Some(bytes) => {
            let marker = WINE_BUILTIN_DLL_MARKER.as_bytes();
            let length: usize = if bytes.len() <= DLL_HEAD_BYTES {
                bytes.len()
            } else {
                DLL_HEAD_BYTES
            };
            let first = slice_subrange(bytes, 0, length);
            assert(first@ == dll_head(bytes@));
            text::contains_bytes(first, marker)
        },
    }
}

/// Whether a name is a text that ends with `suffix`, which is in lower case, in
/// any letter case.
pub open spec fn has_suffix(name: Option<String>, suffix: Seq<char>) -> bool {
    name matches Some(n) && suffix.is_suffix_of(text::lowered(n@))
}

/// Whether any of the names in a directory ends with `suffix`, which is in
/// lower case, in any letter case.
pub fn dir_has_suffix_ci(names: &[Option<String>], suffix: &str) -> (found: bool)
    ensures
        found == exists|i: int| 0 <= i < names@.len() && has_suffix(#[trigger] names@[i], suffix@),
{
    let ending = text::chars_of(suffix);
    for i in 0..names.len()
        invariant
            ending@ == suffix@,
            forall|j: int| 0 <= j < i ==> !has_suffix(#[trigger] names@[j], suffix@),
    {
        if let Some(name) = &names[i] {
            if text::ends_with(&text::to_lower(&text::chars_of(name)), &ending) {
                assert(has_suffix(names@[i as int], suffix@));
                return true;
            }
        }
    }
    false
}

/// Whether a name is the text `wanted` in any letter case.
pub open spec fn is_name(name: Option<String>, wanted: Seq<char>) -> bool {
    name matches Some(n) && text::same_but_case(n@, wanted)
}

/// Finds the first of the names in a directory that is `wanted` in any letter
/// case: the installer of .NET and the import tables of its libraries disagree
/// on it.
pub fn find_file_ci(names: &[Option<String>], wanted: &str) -> (found: Option<usize>)
    ensures
        found matches Some(at) ==> at < names@.len() && is_name(names@[at as int], wanted@)
            && forall|i: int| 0 <= i < at ==> !is_name(#[trigger] names@[i], wanted@),
        found is None ==> forall|i: int|
            0 <= i < names@.len() ==> !is_name(#[trigger] names@[i], wanted@),
{
    let looked_for = text::chars_of(wanted);
    for i in 0..names.len()
        invariant
            looked_for@ == wanted@,
            forall|j: int| 0 <= j < i ==> !is_name(#[trigger] names@[j], wanted@),
    {
        if let Some(name) = &names[i] {
            if text::eq_ignore_ascii_case(&text::chars_of(name), &looked_for) {
                return Some(i);
            }
        }
    }
    None
}

/// The first of the names from `from` on that is `name` in any letter case, as it
/// is written there; `name` itself where there is none.
pub open spec fn installed_as(present: Seq<Option<String>>, name: Seq<char>, from: int) -> Seq<char>
    decreases present.len() - from,
{
    if from >= present.len() {
        name
    } else if is_name(present[from], name) {
        present[from]->0@
    } else {
        installed_as(present, name, from + 1)
    }
}

/// The first name that is the wanted one decides.
proof fn lemma_installed_as(present: Seq<Option<String>>, name: Seq<char>, from: int, at: int)
    requires
        0 <= from <= at <= present.len(),
        forall|i: int| from <= i < at ==> !is_name(#[trigger] present[i], name),
        at < present.len() ==> is_name(present[at], name),
    ensures
        installed_as(present, name, from) == if at < present.len() {
            present[at]->0@
        } else {
            name
        },
    decreases at - from,
{
    if from < at {
        assert(!is_name(present[from], name));
        lemma_installed_as(present, name, from + 1, at);
    }
}

/// The name under which a library is installed into a directory that holds the
/// names `present`: over the first file that has its name, however that is
/// written there, and under its own name where there is none. What is there is
/// the stand-in of wine or an older copy, and is to be replaced.
pub fn install_name(present: &[Option<String>], name: &str) -> (chosen: String)
    ensures
        chosen@ == installed_as(present@, name@, 0),
{
    match find_file_ci(present, name) {
        Some(at) => {
            proof {
                lemma_installed_as(present@, name@, 0, at as int);
            }
            match &present[at] {
                Some(found) => found.clone(),
                None => name.to_owned(),
            }
        },
        None => {
            proof {
                lemma_installed_as(present@, name@, 0, present@.len() as int);
            }
            name.to_owned()
        },
    }
}

/// Whether a name in a system directory is that of a library that the runtime
/// needs there: one of its C runtime libraries, or the library through which
/// trainers load it.
pub open spec fn is_support_library(name: Option<String>) -> bool {
    has_suffix(name, CLR_CRT_SUFFIX@) || is_name(name, MSCOREE@)
}

/// The libraries in a system directory that a copied runtime needs, as indices
/// into the names of the directory. The installer puts them outside the
/// directory of the runtime, and without them the runtime does not load.
pub fn dotnet_system_files(names: &[Option<String>]) -> (found: Vec<usize>)
    ensures
        forall|i: int, j: int| 0 <= i < j < found@.len() ==> found@[i] < found@[j],
        forall|at: usize| #[trigger]
            found@.contains(at) <==> at < names@.len() && is_support_library(names@[at as int]),
{
    let ending = text::chars_of(CLR_CRT_SUFFIX);
    let shim = text::chars_of(MSCOREE);
    let mut found: Vec<usize> = Vec::new();
    for i in 0..names.len()
        invariant
            ending@ == CLR_CRT_SUFFIX@,
            shim@ == MSCOREE@,
            forall|k: int| 0 <= k < found@.len() ==> found@[k] < i,
            forall|k: int, l: int| 0 <= k < l < found@.len() ==> found@[k] < found@[l],
            forall|at: usize| #[trigger]
                found@.contains(at) <==> at < i && is_support_library(names@[at as int]),
    {
        let ghost before = found@;
        let wanted = match &names[i] {
            Some(name) => {
                let chars = text::chars_of(name);
                text::ends_with(&text::to_lower(&chars), &ending) || text::eq_ignore_ascii_case(
                    &chars,
                    &shim,
                )
            },
            None => false,
        };
        assert(wanted == is_support_library(names@[i as int]));
        if wanted {
            found.push(i);
            assert(found@[before.len() as int] == i);
            assert forall|at: usize| #[trigger] found@.contains(at) <==> before.contains(at) || at
                == i by {
                if before.contains(at) {
                    assert(found@[before.index_of(at)] == at);
                }
                if found@.contains(at) {
                    let k = found@.index_of(at);
                    if k < before.len() {
                        assert(before[k] == at);
                    }
                }
            }
        }
    }
    found
}

/// What a probe says of the .NET runtime of a prefix.
pub open spec fn status_of(probe: DotnetProbe) -> DotnetStatus {
    DotnetStatus {
        clr_present: probe.clr_is_file,
        mscoree_native: probe.mscoree_is_file && !(probe.mscoree_head matches Some(head)
            && is_builtin(head@)),
        crt_present: probe.system32_names matches Some(names) && exists|i: int|
            0 <= i < names@.len() && has_suffix(#[trigger] names@[i], CLR_CRT_SUFFIX@),
        release: match probe.system_reg {
            Some(registry) => release_in(registry@),
            None => None,
        },
    }
}

/// What a probe says of the .NET runtime of a prefix.
pub fn dotnet_status(probe: &DotnetProbe) -> (status: DotnetStatus)
    ensures
        status == status_of(*probe),
{
    let head: Option<&[u8]> = match &probe.mscoree_head {
        Some(bytes) => Some(bytes.as_slice()),
        None => None,
    };
    DotnetStatus {
        clr_present: probe.clr_is_file,
        mscoree_native: probe.mscoree_is_file && !is_wine_builtin_dll(head),
        crt_present: match &probe.system32_names {
            Some(names) => dir_has_suffix_ci(names, CLR_CRT_SUFFIX),
            None => false,
        },
        release: match &probe.system_reg {
            Some(registry) => parse_dotnet_release(registry),
            None => None,
        },
    }
}

/// Whether a trainer of today can run in the prefix that was probed.
pub fn has_usable_dotnet(probe: &DotnetProbe) -> (usable: bool)
    ensures
        usable == status_of(*probe).usable(),
        usable ==> probe.clr_is_file && probe.mscoree_is_file && probe.system32_names is Some
            && probe.system_reg is Some,
{
    dotnet_status(probe).is_usable()
}

// ---------------------------------------------------------------------------
// Exporting the registry
// ---------------------------------------------------------------------------

/// The first line of a registry file that `regedit` imports.
pub const REGEDIT_TITLE: &'static str = "Windows Registry Editor Version 5.00\n";

/// What stands in front of the key in a section that `regedit` imports.
pub const REGEDIT_ROOT: &'static str = "\n[HKEY_LOCAL_MACHINE\\";

/// What stands behind the key in a section that `regedit` imports.
pub const REGEDIT_CLOSE: &'static str = "]\n";

/// What separates the parts of a key in `system.reg`.
pub const KEY_SEPARATOR: &'static str = "\\\\";

pub const SETUP_KEY: &'static str = "Software\\\\Microsoft\\\\NET Framework Setup";

pub const SETUP_KEY_32: &'static str =
    "Software\\\\Wow6432Node\\\\Microsoft\\\\NET Framework Setup";

pub const FRAMEWORK_KEY: &'static str = "Software\\\\Microsoft\\\\.NETFramework";

pub const FRAMEWORK_KEY_32: &'static str =
    "Software\\\\Wow6432Node\\\\Microsoft\\\\.NETFramework";

/// Whether `key` is `root` or lies below it.
pub open spec fn is_under(key: Seq<char>, root: Seq<char>) -> bool {
    key == root || (root + KEY_SEPARATOR@).is_prefix_of(key)
}

/// Whether `key` belongs to the .NET runtime.
pub open spec fn is_dotnet_key(key: Seq<char>) -> bool {
    ||| is_under(key, SETUP_KEY@)
    ||| is_under(key, SETUP_KEY_32@)
    ||| is_under(key, FRAMEWORK_KEY@)
    ||| is_under(key, FRAMEWORK_KEY_32@)
}

/// The key that a header names: what stands between the brackets. Wine writes
/// a time stamp behind them.
pub open spec fn key_of(header: Seq<char>) -> Seq<char> {
    header.skip(1).take(text::first_index(header.skip(1), ']'))
}

/// `s` with each pair of backslashes made one, from left to right.
pub open spec fn unescaped(s: Seq<char>) -> Seq<char>
    decreases s.len(),
{
    if s.len() == 0 {
        Seq::empty()
    } else if s.len() >= 2 && s[0] == '\\' && s[1] == '\\' {
        seq!['\\'] + unescaped(s.skip(2))
    } else {
        seq![s[0]] + unescaped(s.skip(1))
    }
}

/// Whether line `at` stands in a section of the .NET runtime.
pub open spec fn in_dotnet_section(file: Seq<Seq<char>>, at: int) -> bool {
    section_at(file, at) matches Some(header) && is_dotnet_key(key_of(header))
}

/// Whether a line begins a value: a named one, or the default of its key.
pub open spec fn begins_value(line: Seq<char>) -> bool {
    line.len() > 0 && (line[0] == '"' || line[0] == '@')
}

/// Whether a line says that its value goes on in the next line.
pub open spec fn goes_on(line: Seq<char>) -> bool {
    line.len() > 0 && line.last() == '\\'
}

/// Whether line `at` is a line of a value of the .NET runtime: it begins one,
/// or it goes on with the value of the line before it.
pub open spec fn is_dotnet_value(file: Seq<Seq<char>>, at: int) -> bool
    decreases at,
{
    &&& 0 <= at < file.len()
    &&& !is_header(file[at])
    &&& in_dotnet_section(file, at)
    &&& begins_value(file[at]) || (is_dotnet_value(file, at - 1) && goes_on(file[at - 1]))
}

/// What line `at` contributes to the export.
pub open spec fn exported_line(file: Seq<Seq<char>>, at: int) -> Seq<char> {
    if is_header(file[at]) && is_dotnet_key(key_of(file[at])) {
        REGEDIT_ROOT@ + unescaped(key_of(file[at])) + REGEDIT_CLOSE@
    } else if is_dotnet_value(file, at) {
        file[at].push('\n')
    } else {
        Seq::empty()
    }
}

/// What the first `count` lines contribute to the export, in order.
pub open spec fn exported_lines(file: Seq<Seq<char>>, count: int) -> Seq<char>
    decreases count,
{
    if count <= 0 {
        Seq::empty()
    } else {
        exported_lines(file, count - 1) + exported_line(file, count - 1)
    }
}

/// The export of a registry file: the title, then what each line contributes.
pub open spec fn reg_export(text: Seq<char>) -> Seq<char> {
    REGEDIT_TITLE@ + exported_lines(text::lines(text), text::lines(text).len() as int)
}

/// Makes each pair of backslashes one.
fn push_unescaped(out: &mut String, key: &[char])
    ensures
        final(out)@ == old(out)@ + unescaped(key@),
{
    let ghost before = out@;
    let mut at: usize = 0;
    assert(key@.skip(0) == key@);
    while at < key.len()
        invariant
            at <= key@.len(),
            before + unescaped(key@) == out@ + unescaped(key@.skip(at as int)),
        decreases key@.len() - at,
    {
        let ghost rest = key@.skip(at as int);
        let ghost so_far = out@;
        out.push(key[at]);
        if key[at] == '\\' && at + 1 < key.len() && key[at + 1] == '\\' {
            assert(rest.skip(2) == key@.skip(at + 2));
            assert(so_far + (seq!['\\'] + unescaped(rest.skip(2))) == out@ + unescaped(
                rest.skip(2),
            ));
            at += 2;
        } else {
            assert(rest.skip(1) == key@.skip(at + 1));
            assert(so_far + (seq![rest[0]] + unescaped(rest.skip(1))) == out@ + unescaped(
                rest.skip(1),
            ));
            at += 1;
        }
    }
    assert(unescaped(key@.skip(at as int)) == Seq::<char>::empty());
}

/// Whether `key` is `root` or lies below it.
fn lies_under(key: &[char], root: &str) -> (under: bool)
    ensures
        under == is_under(key@, root@),
{
    let mut below = text::chars_of(root);
    if text::same_chars(key, &below) {
        return true;
    }
    let mut separator = text::chars_of(KEY_SEPARATOR);
    below.append(&mut separator);
    text::starts_with(key, &below)
}

/// Whether `key` belongs to the .NET runtime.
fn belongs_to_dotnet(key: &[char]) -> (wanted: bool)
    ensures
        wanted == is_dotnet_key(key@),
{
    lies_under(key, SETUP_KEY) || lies_under(key, SETUP_KEY_32) || lies_under(key, FRAMEWORK_KEY)
        || lies_under(key, FRAMEWORK_KEY_32)
}

/// Turns the .NET sections of a prefix's `system.reg` into a file for
/// `regedit`. Wine writes `system.reg` with doubled backslashes in keys and a
/// time stamp behind each key, and `regedit` accepts neither.
///
/// The import goes through `regedit` because the wineserver of the game keeps
/// the registry in memory and would overwrite an edit of `system.reg`.
pub fn dotnet_reg_export(system_reg: &str) -> (out: String)
    ensures
        out@ == reg_export(system_reg@),
{
    let chars = text::chars_of(system_reg);
    let file = text::split_lines(&chars);
    let ghost all = text::lines(system_reg@);
    let mut out = String::new();
    out.push_str(REGEDIT_TITLE);
    let mut keep = false;
    let mut continuing = false;
    assert(out@ == REGEDIT_TITLE@ + exported_lines(all, 0));
    for i in 0..file.len()
        invariant
            text::views(file@) == all,
            keep == in_dotnet_section(all, i as int),
            continuing == (is_dotnet_value(all, i - 1) && goes_on(all[i - 1])),
            out@ == REGEDIT_TITLE@ + exported_lines(all, i as int),
    {
        let line = file[i];
        let ghost before = out@;
        assert(line@ == all[i as int]);
        if line.len() > 0 && line[0] == '[' {
            let end = text::find_char(line, 1, ']');
            let key = slice_subrange(line, 1, end);
            proof {
                text::lemma_first_where(line@.skip(1), text::is_char(']'));
            }
            assert(key@ == key_of(line@));
            assert(section_at(all, i + 1) == Some(line@));
            keep = belongs_to_dotnet(key);
            continuing = false;
            if keep {
                out.push_str(REGEDIT_ROOT);
                push_unescaped(&mut out, key);
                out.push_str(REGEDIT_CLOSE);
            }
            assert(out@ == before + exported_line(all, i as int));
        } else {
            assert(section_at(all, i + 1) == section_at(all, i as int));
            let value = keep && (continuing || (line.len() > 0 && (line[0] == '"' || line[0]
                == '@')));
            assert(value == is_dotnet_value(all, i as int));
            if value {
                text::push_chars(&mut out, line);
                out.push('\n');
            }
            continuing = value && line.len() > 0 && line[line.len() - 1] == '\\';
            assert(out@ == before + exported_line(all, i as int));
        }
        assert(out@ == REGEDIT_TITLE@ + exported_lines(all, i + 1));
    }
    out
}

/// What a line contributes stands in the export behind what the lines before it
/// contribute.
proof fn lemma_exported_in_order(file: Seq<Seq<char>>, at: int, count: int)
    requires
        0 <= at < count,
    ensures
        (exported_lines(file, at) + exported_line(file, at)).is_prefix_of(
            exported_lines(file, count),
        ),
    decreases count,
{
    let upto = exported_lines(file, at) + exported_line(file, at);
    let before = exported_lines(file, count - 1);
    if at == count - 1 {
        assert(exported_lines(file, count) == upto);
    } else {
        lemma_exported_in_order(file, at, count - 1);
    }
    assert(exported_lines(file, count).subrange(0, upto.len() as int) =~= upto);
}

/// The section of the .NET Framework 4 is a section of the .NET runtime.
proof fn lemma_full_section_is_dotnet(header: Seq<char>)
    requires
        FULL_SECTION@.is_prefix_of(header),
    ensures
        is_dotnet_key(key_of(header)),
{
    reveal_strlit("[Software\\\\Microsoft\\\\NET Framework Setup\\\\NDP\\\\v4\\\\Full]");
    reveal_strlit("Software\\\\Microsoft\\\\NET Framework Setup");
    reveal_strlit("\\\\");
    let end = FULL_SECTION@.len() - 2;
    let inner = header.skip(1);
    assert forall|i: int| 0 <= i <= end implies #[trigger] inner[i] == FULL_SECTION@[i + 1] by {
        assert(header.subrange(0, FULL_SECTION@.len() as int)[i + 1] == header[i + 1]);
    }
    text::lemma_first_where_is(inner, text::is_char(']'), end);
    let key = key_of(header);
    let root = SETUP_KEY@ + KEY_SEPARATOR@;
    assert(key.subrange(0, root.len() as int) =~= root);
}

/// The line from which the version of the .NET Framework 4 is read is carried
/// over to the export as it stands: behind what the lines before it contribute.
pub proof fn law_release_is_carried_over(text: Seq<char>, at: int)
    requires
        0 <= at < text::lines(text).len(),
        is_release_line(text::lines(text), at),
    ensures
        (REGEDIT_TITLE@ + exported_lines(text::lines(text), at) + text::lines(text)[at].push(
            '\n',
        )).is_prefix_of(reg_export(text)),
{
    let file = text::lines(text);
    lemma_full_section_is_dotnet(section_at(file, at)->0);
    assert(begins_value(file[at])) by {
        reveal_strlit("\"Release\"=dword:");
        assert(file[at].subrange(0, RELEASE_PREFIX@.len() as int)[0] == file[at][0]);
    }
    assert(exported_line(file, at) == file[at].push('\n'));
    lemma_exported_in_order(file, at, file.len() as int);
    let all = exported_lines(file, file.len() as int);
    let upto = exported_lines(file, at) + exported_line(file, at);
    let whole = REGEDIT_TITLE@ + exported_lines(file, at) + file[at].push('\n');
    assert(all.subrange(0, upto.len() as int) == upto);
    assert(whole == REGEDIT_TITLE@ + upto);
    assert(reg_export(text).subrange(0, whole.len() as int) =~= whole);
}

/// A line that neither opens a section of the .NET runtime nor stands in one
/// leaves no trace in the export.
pub proof fn law_unrelated_lines_are_dropped(file: Seq<Seq<char>>, at: int)
    requires
        0 <= at < file.len(),
        !(is_header(file[at]) && is_dotnet_key(key_of(file[at]))),
        !in_dotnet_section(file, at),
    ensures
        exported_lines(file, at + 1) == exported_lines(file, at),
{
    assert(exported_lines(file, at) + Seq::<char>::empty() == exported_lines(file, at));
}

// ---------------------------------------------------------------------------
// Laws of the export, on written sections
// ---------------------------------------------------------------------------

/// Whether a key is one of the four roots of the .NET runtime, or is one of them
/// with two backslashes and anything more behind it.
pub open spec fn is_wanted_key(key: Seq<char>) -> bool {
    ||| is_at_or_below(key, "Software\\\\Microsoft\\\\NET Framework Setup"@)
    ||| is_at_or_below(key, "Software\\\\Wow6432Node\\\\Microsoft\\\\NET Framework Setup"@)
    ||| is_at_or_below(key, "Software\\\\Microsoft\\\\.NETFramework"@)
    ||| is_at_or_below(key, "Software\\\\Wow6432Node\\\\Microsoft\\\\.NETFramework"@)
}

/// Whether `key` is `root`, or `root`, two backslashes and anything more.
pub open spec fn is_at_or_below(key: Seq<char>, root: Seq<char>) -> bool {
    key == root || exists|more: Seq<char>| key == #[trigger] (root + "\\\\"@ + more)
}

/// The line that opens the section of a key: the key in brackets, and behind
/// them whatever is written there.
pub open spec fn written_header(key: Seq<char>, stamp: Seq<char>) -> Seq<char> {
    seq!['['] + key + seq![']'] + stamp
}

/// Which of the lines of a section are kept: those that begin with a quote or an
/// at sign, and those behind a kept line that ends with a backslash.
pub open spec fn are_kept(values: Seq<Seq<char>>, kept: Seq<bool>) -> bool {
    &&& kept.len() == values.len()
    &&& forall|i: int|
        0 <= i < values.len() ==> (#[trigger] kept[i] <==> {
            ||| values[i].len() > 0 && (values[i][0] == '"' || values[i][0] == '@')
            ||| i > 0 && kept[i - 1] && values[i - 1].len() > 0 && values[i - 1].last() == '\\'
        })
}

/// The lines that are kept, each with a line feed behind it.
pub open spec fn kept_text(values: Seq<Seq<char>>, kept: Seq<bool>, count: int) -> Seq<char>
    decreases count,
{
    if count <= 0 {
        Seq::empty()
    } else if kept[count - 1] {
        kept_text(values, kept, count - 1) + values[count - 1] + seq!['\n']
    } else {
        kept_text(values, kept, count - 1)
    }
}

/// The key of a written header is the one that was written.
proof fn lemma_key_of_written(key: Seq<char>, stamp: Seq<char>)
    requires
        !key.contains(']'),
    ensures
        key_of(written_header(key, stamp)) == key,
        is_header(written_header(key, stamp)),
{
    let header = written_header(key, stamp);
    let inner = header.skip(1);
    assert forall|i: int| 0 <= i < key.len() implies !text::is_char(']')(#[trigger] inner[i]) by {
        assert(inner[i] == key[i]);
        assert(key.contains(key[i]));
    }
    assert(inner[key.len() as int] == ']');
    text::lemma_first_where_is(inner, text::is_char(']'), key.len() as int);
    assert(inner.take(key.len() as int) == key);
}

/// A key belongs to the .NET runtime exactly where it is written so.
proof fn lemma_wanted_key(key: Seq<char>)
    ensures
        is_dotnet_key(key) <==> is_wanted_key(key),
{
    lemma_at_or_below(key, "Software\\\\Microsoft\\\\NET Framework Setup"@);
    lemma_at_or_below(key, "Software\\\\Wow6432Node\\\\Microsoft\\\\NET Framework Setup"@);
    lemma_at_or_below(key, "Software\\\\Microsoft\\\\.NETFramework"@);
    lemma_at_or_below(key, "Software\\\\Wow6432Node\\\\Microsoft\\\\.NETFramework"@);
}

/// A key lies below a root exactly where it is written so.
proof fn lemma_at_or_below(key: Seq<char>, root: Seq<char>)
    ensures
        is_under(key, root) <==> is_at_or_below(key, root),
{
    let two = "\\\\"@;
    let front = root + two;
    if front.is_prefix_of(key) {
        let more = key.skip(front.len() as int);
        assert(key == root + two + more);
    }
    if exists|more: Seq<char>| key == #[trigger] (root + two + more) {
        let more = choose|more: Seq<char>| key == #[trigger] (root + two + more);
        assert(key.subrange(0, front.len() as int) == front);
    }
}

/// What lines contribute does not depend on the lines that follow.
proof fn lemma_export_of_front(a: Seq<Seq<char>>, b: Seq<Seq<char>>, count: int)
    requires
        0 <= count <= a.len(),
    ensures
        exported_lines(a + b, count) == exported_lines(a, count),
        section_at(a + b, count) == section_at(a, count),
        count < a.len() ==> is_dotnet_value(a + b, count) == is_dotnet_value(a, count),
    decreases count,
{
    if count > 0 {
        lemma_export_of_front(a, b, count - 1);
        assert((a + b)[count - 1] == a[count - 1]);
    }
    if count < a.len() {
        assert((a + b)[count] == a[count]);
        assert(is_dotnet_value(a + b, -1) == false);
        assert(is_dotnet_value(a, -1) == false);
    }
}

/// What lines from a header on contribute does not depend on the lines before.
proof fn lemma_export_of_back(a: Seq<Seq<char>>, b: Seq<Seq<char>>, count: int)
    requires
        0 <= count <= b.len(),
        b.len() > 0,
        is_header(b[0]),
    ensures
        exported_lines(a + b, a.len() + count) == exported_lines(a, a.len() as int)
            + exported_lines(b, count),
        count > 0 ==> section_at(a + b, a.len() + count) == section_at(b, count),
        count < b.len() ==> is_dotnet_value(a + b, a.len() + count) == is_dotnet_value(b, count),
    decreases count,
{
    let file = a + b;
    if count > 0 {
        lemma_export_of_back(a, b, count - 1);
        assert(file[a.len() + count - 1] == b[count - 1]);
        assert(exported_line(file, a.len() + count - 1) == exported_line(b, count - 1));
        assert(exported_lines(a, a.len() as int) + (exported_lines(b, count - 1) + exported_line(
            b,
            count - 1,
        )) == exported_lines(a, a.len() as int) + exported_lines(b, count));
    } else {
        lemma_export_of_front(a, b, a.len() as int);
        assert(exported_lines(b, 0) == Seq::<char>::empty());
    }
    if count < b.len() {
        assert(file[a.len() + count] == b[count]);
    }
}

/// Lines from a header on are exported by themselves, behind what the lines
/// before them give.
pub proof fn law_sections_are_independent(a: Seq<Seq<char>>, b: Seq<Seq<char>>)
    requires
        b.len() > 0 ==> b[0].len() > 0 && b[0][0] == '[',
    ensures
        exported_lines(a + b, (a + b).len() as int) == exported_lines(a, a.len() as int)
            + exported_lines(b, b.len() as int),
{
    if b.len() == 0 {
        assert(a + b == a);
    } else {
        lemma_export_of_back(a, b, b.len() as int);
    }
}

/// What one section contributes.
proof fn lemma_section(
    key: Seq<char>,
    stamp: Seq<char>,
    values: Seq<Seq<char>>,
    kept: Seq<bool>,
    count: int,
)
    requires
        !key.contains(']'),
        forall|i: int|
            0 <= i < values.len() ==> !((#[trigger] values[i]).len() > 0 && values[i][0] == '['),
        are_kept(values, kept),
        0 <= count <= values.len(),
    ensures
        ({
            let file = seq![written_header(key, stamp)] + values;
            &&& section_at(file, count + 1) == Some(written_header(key, stamp))
            &&& is_wanted_key(key) ==> exported_lines(file, count + 1) == "\n[HKEY_LOCAL_MACHINE\\"@
                + unescaped(key) + "]\n"@ + kept_text(values, kept, count)
            &&& !is_wanted_key(key) ==> exported_lines(file, count + 1).len() == 0
            &&& is_dotnet_value(file, count) <==> count > 0 && is_wanted_key(key) && kept[count - 1]
        }),
    decreases count,
{
    let header = written_header(key, stamp);
    let file = seq![header] + values;
    lemma_key_of_written(key, stamp);
    lemma_wanted_key(key);
    let head = "\n[HKEY_LOCAL_MACHINE\\"@ + unescaped(key) + "]\n"@;
    let none = Seq::<char>::empty();
    if count == 0 {
        assert(file[0] == header);
        assert(exported_lines(file, 0) == none);
        assert(none + exported_line(file, 0) == exported_line(file, 0));
        assert(head + none == head);
    } else {
        lemma_section(key, stamp, values, kept, count - 1);
        assert(file[count] == values[count - 1]);
        if count > 1 {
            assert(file[count - 1] == values[count - 2]);
        }
        assert(!is_header(file[count]));
        assert(section_at(file, count) == Some(header));
        let earlier = kept_text(values, kept, count - 1);
        if is_wanted_key(key) && kept[count - 1] {
            assert(exported_line(file, count) == values[count - 1].push('\n'));
            assert(head + earlier + values[count - 1].push('\n') == head + (earlier
                + values[count - 1] + seq!['\n']));
        } else {
            assert(exported_line(file, count) == none);
            assert(exported_lines(file, count) + none == exported_lines(file, count));
        }
    }
}

/// The export of a file, section by section. A section whose key is one of the
/// four roots of the .NET runtime, or lies below one, is in the export: its
/// header without what is written behind the key, with each pair of backslashes
/// made one, and then its values, line by line. A section of any other key is
/// not. What stands before the section and behind it is exported by itself.
pub proof fn law_section_in_the_export(
    text: Seq<char>,
    out: Seq<char>,
    before: Seq<Seq<char>>,
    key: Seq<char>,
    stamp: Seq<char>,
    values: Seq<Seq<char>>,
    kept: Seq<bool>,
    after: Seq<Seq<char>>,
)
    requires
        out == reg_export(text),
        text::lines(text) == before + (seq![written_header(key, stamp)] + values) + after,
        !key.contains(']'),
        forall|i: int|
            0 <= i < values.len() ==> !((#[trigger] values[i]).len() > 0 && values[i][0] == '['),
        are_kept(values, kept),
        after.len() > 0 ==> after[0].len() > 0 && after[0][0] == '[',
    ensures
        is_wanted_key(key) ==> out == "Windows Registry Editor Version 5.00\n"@ + exported_lines(
            before,
            before.len() as int,
        ) + ("\n[HKEY_LOCAL_MACHINE\\"@ + unescaped(key) + "]\n"@ + kept_text(
            values,
            kept,
            values.len() as int,
        )) + exported_lines(after, after.len() as int),
        !is_wanted_key(key) ==> out == "Windows Registry Editor Version 5.00\n"@ + exported_lines(
            before,
            before.len() as int,
        ) + exported_lines(after, after.len() as int),
{
    let section = seq![written_header(key, stamp)] + values;
    assert(section[0][0] == '[');
    law_sections_are_independent(before, section);
    law_sections_are_independent(before + section, after);
    lemma_section(key, stamp, values, kept, values.len() as int);
    let a = exported_lines(before, before.len() as int);
    let b = exported_lines(section, section.len() as int);
    let c = exported_lines(after, after.len() as int);
    assert(REGEDIT_TITLE@ + (a + b + c) == REGEDIT_TITLE@ + a + b + c);
    if !is_wanted_key(key) {
        assert(REGEDIT_TITLE@ + a + b + c == REGEDIT_TITLE@ + a + c);
    }
}

/// Lines before the first section are not in the export, whatever they are.
pub proof fn law_lines_before_sections(text: Seq<char>, out: Seq<char>)
    requires
        out == reg_export(text),
        forall|i: int|
            0 <= i < text::lines(text).len() ==> !((#[trigger] text::lines(text)[i]).len() > 0
                && text::lines(text)[i][0] == '['),
    ensures
        out == "Windows Registry Editor Version 5.00\n"@,
{
    let file = text::lines(text);
    lemma_no_section(file, file.len() as int);
    assert(REGEDIT_TITLE@ + Seq::<char>::empty() == REGEDIT_TITLE@);
}

/// Lines without a header before them contribute nothing.
proof fn lemma_no_section(file: Seq<Seq<char>>, count: int)
    requires
        0 <= count <= file.len(),
        forall|i: int|
            0 <= i < file.len() ==> !((#[trigger] file[i]).len() > 0 && file[i][0] == '['),
    ensures
        exported_lines(file, count) == Seq::<char>::empty(),
        section_at(file, count) is None,
    decreases count,
{
    if count > 0 {
        lemma_no_section(file, count - 1);
        assert(!is_header(file[count - 1]));
    }
}

/// Two backslashes in a key are written as one, and everything else stays.
pub proof fn law_backslashes(part: Seq<char>, rest: Seq<char>)
    requires
        !part.contains('\\'),
    ensures
        unescaped(part + seq!['\\', '\\'] + rest) == part + seq!['\\'] + unescaped(rest),
        unescaped(part) == part,
    decreases part.len(),
{
    let two = seq!['\\', '\\'];
    let whole = part + two + rest;
    if part.len() == 0 {
        assert(whole.skip(2) == rest);
        assert(part + seq!['\\'] + unescaped(rest) == seq!['\\'] + unescaped(rest));
        assert(unescaped(part) == part);
    } else {
        assert(part.contains(part[0]));
        let tail = part.skip(1);
        assert forall|c: char| tail.contains(c) implies part.contains(c) by {
            let i = tail.index_of(c);
            assert(part[i + 1] == c);
        }
        law_backslashes(tail, rest);
        assert(whole.skip(1) == tail + two + rest);
        assert(whole[0] == part[0]);
        assert(seq![part[0]] + (tail + seq!['\\'] + unescaped(rest)) == part + seq!['\\']
            + unescaped(rest));
        assert(seq![part[0]] + tail == part);
    }
}

// ---------------------------------------------------------------------------
// Laws of what a prefix holds
// ---------------------------------------------------------------------------

/// Whether line `at` stands in the section that line `header_at` opens: that one
/// begins with a bracket, and none behind it up to line `at` does.
pub open spec fn stands_below(file: Seq<Seq<char>>, at: int, header_at: int) -> bool {
    &&& 0 <= header_at < at < file.len()
    &&& file[header_at].len() > 0 && file[header_at][0] == '['
    &&& forall|i: int|
        header_at < i <= at ==> !((#[trigger] file[i]).len() > 0 && file[i][0] == '[')
}

/// Whether line `at` is written like one that gives the version: it begins with
/// `"Release"=dword:` and stands below the header of the .NET Framework 4.
pub open spec fn is_written_release(file: Seq<Seq<char>>, at: int) -> bool {
    &&& 0 <= at < file.len()
    &&& "\"Release\"=dword:"@.is_prefix_of(file[at])
    &&& exists|header_at: int| #[trigger]
        stands_below(file, at, header_at)
            && "[Software\\\\Microsoft\\\\NET Framework Setup\\\\NDP\\\\v4\\\\Full]"@.is_prefix_of(
            file[header_at],
        )
}

/// The header that a line stands below is the one that opened its section.
proof fn lemma_stands_below(file: Seq<Seq<char>>, at: int, header_at: int, upto: int)
    requires
        stands_below(file, at, header_at),
        header_at < upto <= at,
    ensures
        section_at(file, upto) == Some(file[header_at]),
    decreases upto,
{
    if upto > header_at + 1 {
        assert(!is_header(file[upto - 1]));
        lemma_stands_below(file, at, header_at, upto - 1);
    }
}

/// A line with a section stands below the header that opened it.
proof fn lemma_section_stands(file: Seq<Seq<char>>, at: int) -> (header_at: int)
    requires
        0 <= at <= file.len(),
        section_at(file, at) is Some,
    ensures
        0 <= header_at < at,
        is_header(file[header_at]),
        section_at(file, at) == Some(file[header_at]),
        forall|i: int| header_at < i < at ==> !is_header(#[trigger] file[i]),
    decreases at,
{
    if is_header(file[at - 1]) {
        at - 1
    } else {
        lemma_section_stands(file, at - 1)
    }
}

/// A line gives the version exactly where it is written like one that does.
proof fn lemma_written_release(file: Seq<Seq<char>>, at: int)
    requires
        0 <= at < file.len(),
    ensures
        is_release_line(file, at) <==> is_written_release(file, at),
{
    if is_written_release(file, at) {
        let header_at = choose|header_at: int| #[trigger]
            stands_below(file, at, header_at)
                && "[Software\\\\Microsoft\\\\NET Framework Setup\\\\NDP\\\\v4\\\\Full]"@.is_prefix_of(
                file[header_at],
            );
        lemma_stands_below(file, at, header_at, at);
        assert(!is_header(file[at]));
    }
    if is_release_line(file, at) {
        let header_at = lemma_section_stands(file, at);
        assert(stands_below(file, at, header_at));
    }
}

/// The first line that gives a version decides.
proof fn lemma_release_at(file: Seq<Seq<char>>, from: int, at: int)
    requires
        0 <= from <= at <= file.len(),
        forall|i: int| from <= i < at ==> !is_release_line(file, i),
        at < file.len() ==> is_release_line(file, at),
    ensures
        release_from(file, from) == if at < file.len() {
            release_on(file[at])
        } else {
            None
        },
    decreases at - from,
{
    if from < at {
        assert(!is_release_line(file, from));
        lemma_release_at(file, from + 1, at);
    }
}

/// The version of the .NET Framework 4 is the hexadecimal number on the first
/// line that begins with `"Release"=dword:` and stands below the header of its
/// section, whatever white space is around the number. It is not looked for in
/// other sections. Where the digits are none, or the number is too great, there
/// is no version, and there is none without such a line.
pub proof fn law_release_is_read(
    text: Seq<char>,
    release: Option<u32>,
    at: int,
    before: Seq<char>,
    digits: Seq<char>,
    after: Seq<char>,
)
    requires
        release == release_in(text),
        forall|i: int| 0 <= i < before.len() ==> text::is_space(#[trigger] before[i]),
        forall|i: int| 0 <= i < after.len() ==> text::is_space(#[trigger] after[i]),
        digits.len() > 0,
        !text::is_space(digits[0]),
        !text::is_space(digits.last()),
        digits[0] != '+',
    ensures
        is_written_release(text::lines(text), at) && text::lines(text)[at] == "\"Release\"=dword:"@ + (
        before + digits + after) && (forall|j: int|
            0 <= j < at ==> !#[trigger] is_written_release(text::lines(text), j)) ==> release
            == match text::digits_value(digits, 16) {
            Some(value) => if value <= u32::MAX {
                Some(value as u32)
            } else {
                None
            },
            None => None,
        },
        (forall|j: int| !#[trigger] is_written_release(text::lines(text), j)) ==> release is None,
{
    let file = text::lines(text);
    if is_written_release(file, at) && file[at] == "\"Release\"=dword:"@ + (before + digits + after)
        && (forall|j: int| 0 <= j < at ==> !#[trigger] is_written_release(file, j)) {
        lemma_written_release(file, at);
        assert forall|i: int| 0 <= i < at implies !is_release_line(file, i) by {
            assert(!is_written_release(file, i));
            lemma_written_release(file, i);
        }
        lemma_release_at(file, 0, at);
        assert(file[at].skip("\"Release\"=dword:"@.len() as int) == before + digits + after);
        text::law_trimmed(before, digits, after);
        lemma_hex_value_is_natural(digits);
    }
    if forall|j: int| !#[trigger] is_written_release(file, j) {
        assert forall|i: int| 0 <= i < file.len() implies !is_release_line(file, i) by {
            assert(!is_written_release(file, i));
            lemma_written_release(file, i);
        }
        lemma_release_at(file, 0, file.len() as int);
    }
}

/// What digits are worth is not negative.
proof fn lemma_hex_value_is_natural(digits: Seq<char>)
    ensures
        text::digits_value(digits, 16) matches Some(value) ==> value >= 0,
    decreases digits.len(),
{
    if digits.len() > 0 {
        lemma_hex_value_is_natural(digits.drop_last());
    }
}

/// A DLL is one of wine's own exactly where the words `Wine builtin DLL` stand
/// within its first 1024 bytes.
pub proof fn law_builtin_mark(bytes: Seq<u8>, a: Seq<u8>, b: Seq<u8>)
    ensures
        bytes == a + utf8::encode_utf8("Wine builtin DLL"@) + b && a.len() + utf8::encode_utf8(
            "Wine builtin DLL"@,
        ).len() <= 1024 ==> is_builtin(bytes),
        is_builtin(bytes) ==> exists|at: int|
            at + utf8::encode_utf8("Wine builtin DLL"@).len() <= 1024 && #[trigger] text::occurs_at(
                bytes,
                utf8::encode_utf8("Wine builtin DLL"@),
                at,
            ),
{
    let mark = utf8::encode_utf8("Wine builtin DLL"@);
    if bytes == a + mark + b && a.len() + mark.len() <= 1024 {
        let head = dll_head(bytes);
        assert(head.subrange(a.len() as int, (a.len() + mark.len()) as int) == mark);
        assert(text::occurs_at(head, mark, a.len() as int));
    }
    if is_builtin(bytes) {
        let head = dll_head(bytes);
        let at = choose|at: int| text::occurs_at(head, mark, at);
        assert(bytes.subrange(at, at + mark.len()) == head.subrange(at, at + mark.len()));
        assert(text::occurs_at(bytes, mark, at));
    }
}

/// A name ends with a suffix in any letter case exactly where it is something
/// and then the suffix but for the case of letters.
pub proof fn law_suffix_in_any_case(name: Option<String>, suffix: Seq<char>, stem: Seq<char>, end: Seq<char>)
    requires
        text::lowered(suffix) == suffix,
        name is Some,
        name->0@ == stem + end,
        end.len() == suffix.len(),
    ensures
        has_suffix(name, suffix) <==> text::same_but_case(end, suffix),
{
    let whole = text::lowered(name->0@);
    assert(whole == text::lowered(stem) + text::lowered(end));
    assert(whole.subrange(whole.len() - suffix.len(), whole.len() as int) == text::lowered(end));
}

/// Whether a name is something and then `_clr0400.dll`, in any letter case.
pub open spec fn is_written_crt(name: Option<String>) -> bool {
    name is Some && name->0@.len() >= 12 && text::same_but_case(
        name->0@.skip(name->0@.len() - 12),
        "_clr0400.dll"@,
    )
}

/// A name is that of a C runtime library exactly where it is written so.
proof fn lemma_written_crt(name: Option<String>)
    ensures
        has_suffix(name, "_clr0400.dll"@) <==> is_written_crt(name),
{
    reveal_strlit("_clr0400.dll");
    let suffix = "_clr0400.dll"@;
    assert(text::lowered(suffix) =~= suffix);
    if name is Some {
        let n = name->0@;
        if n.len() >= 12 {
            assert(n == n.take(n.len() - 12) + n.skip(n.len() - 12));
            law_suffix_in_any_case(name, suffix, n.take(n.len() - 12), n.skip(n.len() - 12));
        }
    }
}

/// What a probe says, point by point: the runtime is there where its file is; the
/// library that loads it is a real one where it is a file whose first 1024 bytes
/// do not hold the words `Wine builtin DLL`, or could not be read; and the C
/// runtime libraries are there where any name ends with `_clr0400.dll`.
pub proof fn law_status(probe: DotnetProbe, status: DotnetStatus)
    requires
        status == status_of(probe),
    ensures
        status.clr_present == probe.clr_is_file,
        !probe.mscoree_is_file ==> !status.mscoree_native,
        probe.mscoree_is_file && probe.mscoree_head is None ==> status.mscoree_native,
        probe.mscoree_is_file && probe.mscoree_head is Some ==> (status.mscoree_native <==> !exists|
            at: int,
        |
            at + utf8::encode_utf8("Wine builtin DLL"@).len() <= 1024 && #[trigger] text::occurs_at(
                probe.mscoree_head->0@,
                utf8::encode_utf8("Wine builtin DLL"@),
                at,
            )),
        probe.system32_names is None ==> !status.crt_present,
        probe.system32_names is Some ==> (status.crt_present <==> exists|i: int|
            0 <= i < probe.system32_names->0@.len() && is_written_crt(
                #[trigger] probe.system32_names->0@[i],
            )),
        probe.system_reg is None ==> status.release is None,
        probe.system_reg is Some ==> status.release == release_in(probe.system_reg->0@),
{
    if probe.mscoree_head is Some {
        let bytes = probe.mscoree_head->0@;
        let mark = utf8::encode_utf8("Wine builtin DLL"@);
        law_builtin_mark(bytes, Seq::empty(), Seq::empty());
        if exists|at: int| at + mark.len() <= 1024 && #[trigger] text::occurs_at(bytes, mark, at) {
            let at = choose|at: int|
                at + mark.len() <= 1024 && #[trigger] text::occurs_at(bytes, mark, at);
            let (a, b) = (bytes.take(at), bytes.skip(at + mark.len()));
            assert(bytes.subrange(at, at + mark.len()) == mark);
            assert(bytes == a + bytes.subrange(at, at + mark.len()) + b);
            law_builtin_mark(bytes, a, b);
        }
    }
    if probe.system32_names is Some {
        let names = probe.system32_names->0@;
        assert forall|i: int| 0 <= i < names.len() implies (has_suffix(
            #[trigger] names[i],
            "_clr0400.dll"@,
        ) <==> is_written_crt(names[i])) by {
            lemma_written_crt(names[i]);
        }
        if exists|i: int| 0 <= i < names.len() && is_written_crt(#[trigger] names[i]) {
            let i = choose|i: int| 0 <= i < names.len() && is_written_crt(#[trigger] names[i]);
            assert(has_suffix(names[i], "_clr0400.dll"@));
        }
        if status.crt_present {
            let i = choose|i: int|
                0 <= i < names.len() && has_suffix(#[trigger] names[i], "_clr0400.dll"@);
            assert(is_written_crt(names[i]));
        }
    }
}

/// The libraries that a copied runtime needs are all those whose name ends with
/// `_clr0400.dll` or is `mscoree.dll`, in any letter case, and no others.
pub proof fn law_system_files(names: Seq<Option<String>>, found: Seq<usize>, at: usize)
    requires
        forall|at: usize| #[trigger]
            found.contains(at) <==> at < names.len() && is_support_library(names[at as int]),
    ensures
        found.contains(at) <==> at < names.len() && (is_written_crt(names[at as int])
            || names[at as int] is Some && text::same_but_case(
            names[at as int]->0@,
            "mscoree.dll"@,
        )),
{
    if at < names.len() {
        lemma_written_crt(names[at as int]);
    }
}

/// A library is installed under the name that the first file of that name has,
/// in whatever letter case it is written there, and under its own name where
/// there is no such file.
pub proof fn law_install_name(present: Seq<Option<String>>, name: Seq<char>, chosen: Seq<char>, at: int)
    requires
        chosen == installed_as(present, name, 0),
    ensures
        text::same_but_case(chosen, name),
        0 <= at < present.len() && present[at] is Some && text::same_but_case(
            present[at]->0@,
            name,
        ) && (forall|i: int|
            0 <= i < at ==> !((#[trigger] present[i]) is Some && text::same_but_case(
                present[i]->0@,
                name,
            ))) ==> chosen == present[at]->0@,
        (forall|i: int|
            0 <= i < present.len() ==> !((#[trigger] present[i]) is Some && text::same_but_case(
                present[i]->0@,
                name,
            ))) ==> chosen == name,
{
    lemma_installed_name(present, name, 0);
    if 0 <= at < present.len() && present[at] is Some && text::same_but_case(present[at]->0@, name)
        && (forall|i: int|
        0 <= i < at ==> !((#[trigger] present[i]) is Some && text::same_but_case(
            present[i]->0@,
            name,
        ))) {
        lemma_installed_as(present, name, 0, at);
    }
    if forall|i: int|
        0 <= i < present.len() ==> !((#[trigger] present[i]) is Some && text::same_but_case(
            present[i]->0@,
            name,
        )) {
        lemma_installed_as(present, name, 0, present.len() as int);
    }
}

/// A name that was chosen is the wanted one but for the case of letters.
proof fn lemma_installed_name(present: Seq<Option<String>>, name: Seq<char>, from: int)
    ensures
        text::same_but_case(installed_as(present, name, from), name),
    decreases present.len() - from,
{
    if from < present.len() && !is_name(present[from], name) {
        lemma_installed_name(present, name, from + 1);
    }
}

/// A backslash that is not one of a pair stays, and so does any other character,
/// wherever it stands.
pub proof fn law_single_backslash(c: char, rest: Seq<char>)
    requires
        c != '\\',
    ensures
        unescaped(seq!['\\', c] + rest) == seq!['\\', c] + unescaped(rest),
        unescaped(seq![c] + rest) == seq![c] + unescaped(rest),
        unescaped(seq!['\\', '\\'] + rest) == seq!['\\'] + unescaped(rest),
        unescaped(seq!['\\']) == seq!['\\'],
{
    let one = seq![c] + rest;
    assert(one.skip(1) == rest);
    let two = seq!['\\', c] + rest;
    assert(two.skip(1) == one);
    assert(two[0] == '\\' && two[1] == c && one[0] == c);
    assert(unescaped(one) == seq![c] + unescaped(rest));
    assert(unescaped(two) == seq!['\\'] + unescaped(one));
    assert(seq!['\\'] + (seq![c] + unescaped(rest)) == seq!['\\', c] + unescaped(rest));
    assert((seq!['\\', '\\'] + rest).skip(2) == rest);
    assert(seq!['\\'].skip(1) == Seq::<char>::empty());
    assert(unescaped(Seq::<char>::empty()) == Seq::<char>::empty());
}

} // verus!
