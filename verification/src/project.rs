//! What building a project decides: module keys and the export index, the
//! entries of the module tree, the generated `main.rs`, build directory names.
use vstd::prelude::*;
use crate::ast::strings_view;
use crate::exports::{ExportIndex, key_of, key_spec, keys_sorted, lookup, scan_exports, spec_export_names};
use crate::filepaths::{ext_ok, extension_spec, file_stem_spec, plain_path, strip_spec};
use crate::linemap::slashed;
use crate::pattern::copy_string;
use crate::text::{chars_of, matches_at, push_char, push_str};

verus! {

/// The key of a module file: its path below `src_root` (the whole path when it is
/// not below it), with `/` separators. For plain paths (`plain_path`), which every
/// platform reads alike, that is `strip_spec`'s rest; for others, what stripping
/// the root gave by the platform's rules, made into a key by `key_of`.
pub fn module_key(file: &str, src_root: &str) -> (r: String)
    ensures
        exists|stripped: Option<Seq<char>>| r@ == key_spec(file@, stripped),
        !r@.contains('\\'),
        plain_path(file@) && plain_path(src_root@) ==> r@ == key_spec(file@, strip_spec(file@, src_root@)),
{
    let stripped = crate::filepaths::path_strip_prefix(file, src_root);
    let ghost sv: Option<Seq<char>> = match &stripped {
        Some(x) => Some(x@),
        None => None,
    };
    let mut whole = String::new();
    push_str(&mut whole, file);
    let r = key_of(&whole, stripped);
    assert(r@ == key_spec(file@, sv));
    r
}

/// The last of the first `n` files that could be read and whose key is `key`.
pub open spec fn last_with_key(files: Seq<(String, Option<String>)>, keys: Seq<Seq<char>>, n: int, key: Seq<char>) -> Option<int>
    decreases n,
{
    if n <= 0 {
        None
    } else if files[n - 1].1 is Some && keys[n - 1] == key {
        Some(n - 1)
    } else {
        last_with_key(files, keys, n - 1, key)
    }
}

/// The index records, for every key, the names exported by the last readable file
/// of the first `n` that has that key (each name once), and nothing for other keys.
pub open spec fn index_of_files(
    idx: Seq<(Seq<char>, Seq<Seq<char>>)>,
    files: Seq<(String, Option<String>)>,
    keys: Seq<Seq<char>>,
    n: int,
) -> bool {
    forall|key: Seq<char>|
        match #[trigger] last_with_key(files, keys, n, key) {
            None => lookup(idx, key) is None,
            Some(j) => lookup(idx, key) matches Some(e) && e.no_duplicates() && e.to_set()
                == spec_export_names(files[j].1.unwrap()@).to_set(),
        }
}

/// The export index of the project: for each file that could be read (its path,
/// its text), its key and the names it exports. The key is the file's path below
/// `src_root` (see `module_key`): exactly stated for plain paths, and for others
/// what the platform's path rules gave (none holding a backslash).
pub fn build_export_index(src_root: &str, files: &Vec<(String, Option<String>)>) -> (r: ExportIndex)
    ensures
        keys_sorted(r@),
        exists|keys: Seq<Seq<char>>|
            #![trigger index_of_files(r@, files@, keys, files@.len() as int)]
            keys.len() == files@.len() && (forall|k: int| 0 <= k < keys.len() ==> !(#[trigger] keys[k]).contains('\\'))
                && index_of_files(r@, files@, keys, files@.len() as int) && (forall|k: int|
                0 <= k < keys.len() && files@[k].1 is Some && plain_path(files@[k].0@) && plain_path(src_root@)
                    ==> #[trigger] keys[k] == key_spec(files@[k].0@, strip_spec(files@[k].0@, src_root@))),
{
    let mut idx = ExportIndex::new();
    let mut k: usize = 0;
    let ghost mut keys: Seq<Seq<char>> = Seq::empty();
    assert forall|key: Seq<char>| lookup(idx@, key) is None by {
    }
    while k < files.len()
        invariant
            k <= files@.len(),
            keys_sorted(idx@),
            keys.len() == k,
            forall|j: int| 0 <= j < keys.len() ==> !(#[trigger] keys[j]).contains('\\'),
            forall|j: int|
                0 <= j < keys.len() && files@[j].1 is Some && plain_path(files@[j].0@) && plain_path(src_root@)
                    ==> #[trigger] keys[j] == key_spec(files@[j].0@, strip_spec(files@[j].0@, src_root@)),
            index_of_files(idx@, files@, keys, k as int),
        decreases files@.len() - k,
    {
        let ghost keys0 = keys;
        match &files[k].1 {
            Some(text) => {
                let key = module_key(files[k].0.as_str(), src_root);
                let exports = scan_exports(text.as_str());
                let ghost old_idx = idx@;
                idx.insert(key, exports);
                proof {
                    keys = keys.push(key@);
                    assert forall|kk: Seq<char>|
                        match #[trigger] last_with_key(files@, keys, k + 1, kk) {
                            None => lookup(idx@, kk) is None,
                            Some(j) => lookup(idx@, kk) matches Some(e) && e.no_duplicates() && e.to_set()
                                == spec_export_names(files@[j].1.unwrap()@).to_set(),
                        } by {
                        assert(keys[k as int] == key@);
                        if kk != key@ {
                            lemma_last_with_key_prefix(files@, keys0, keys, k as int, kk);
                            assert(last_with_key(files@, keys, k + 1, kk) == last_with_key(files@, keys0, k as int, kk));
                        }
                    }
                }
            },
            None => {
                proof {
                    keys = keys.push(Seq::empty());
                    assert forall|kk: Seq<char>|
                        #[trigger] last_with_key(files@, keys, k + 1, kk) == last_with_key(files@, keys0, k as int, kk) by {
                        lemma_last_with_key_prefix(files@, keys0, keys, k as int, kk);
                    }
                }
            },
        }
        k += 1;
    }
    assert(keys.len() == files@.len());
    idx
}

proof fn lemma_last_with_key_prefix(
    files: Seq<(String, Option<String>)>,
    keys0: Seq<Seq<char>>,
    keys: Seq<Seq<char>>,
    n: int,
    key: Seq<char>,
)
    requires
        0 <= n <= keys0.len(),
        n < keys.len(),
        forall|j: int| 0 <= j < n ==> keys0[j] == keys[j],
    ensures
        last_with_key(files, keys, n, key) == last_with_key(files, keys0, n, key),
    decreases n,
{
    if n > 0 {
        lemma_last_with_key_prefix(files, keys0, keys, n - 1, key);
    }
}

/// The directories of a generated file's path components (`None` for a component
/// that is not a plain name), all but the last.
pub open spec fn entry_dirs(comps: Seq<Option<Seq<char>>>) -> Seq<Seq<char>>
    decreases comps.len(),
{
    if comps.len() <= 1 {
        Seq::empty()
    } else {
        let prev = entry_dirs(comps.drop_last());
        match comps[comps.len() - 2] {
            Some(d) => prev.push(d),
            None => prev,
        }
    }
}

pub open spec fn opt_strings_view(v: Seq<Option<String>>) -> Seq<Option<Seq<char>>> {
    v.map_values(|o: Option<String>| match o {
        Some(s) => Some(s@),
        None => None,
    })
}

/// The module tree entry of a generated file: its directories, its module name
/// (the file stem) and its path below the output directory with `/` separators.
/// `None` when the last component is not a plain file name.
pub fn tree_entry(comps: &Vec<Option<String>>, stem: &String, rel_from_out: &String) -> (r: Option<
    (Vec<String>, String, String),
>)
    ensures
        r is Some <==> (comps@.len() > 0 && comps@.last() is Some),
        r matches Some(e) ==> strings_view(e.0@) == entry_dirs(opt_strings_view(comps@)) && e.1@ == stem@ && e.2@
            == slashed(rel_from_out@),
{
    let n = comps.len();
    if n == 0 {
        return None;
    }
    match &comps[n - 1] {
        None => {
            return None;
        },
        Some(_) => {},
    }
    let ghost cv = opt_strings_view(comps@);
    let mut dirs: Vec<String> = Vec::new();
    let mut k: usize = 0;
    assert(entry_dirs(cv.take(1)) =~= Seq::<Seq<char>>::empty());
    while k + 1 < n
        invariant
            n == comps@.len(),
            n > 0,
            k + 1 <= n,
            cv == opt_strings_view(comps@),
            strings_view(dirs@) == entry_dirs(cv.take(k + 1)),
        decreases n - k,
    {
        assert(cv.take(k + 2).drop_last() =~= cv.take(k + 1));
        assert(cv.take(k + 2)[k as int] == cv[k as int]);
        match &comps[k] {
            Some(d) => {
                let ghost before = strings_view(dirs@);
                dirs.push(copy_string(d));
                assert(strings_view(dirs@) =~= before.push(d@));
            },
            None => {},
        }
        k += 1;
    }
    assert(cv.take(k + 1) =~= cv);
    Some((dirs, copy_string(stem), crate::exports::slashed_string(rel_from_out)))
}

/// `s` with each backslash doubled, as it must be written inside a Rust string.
pub open spec fn escape_backslashes(s: Seq<char>) -> Seq<char>
    decreases s.len(),
{
    if s.len() == 0 {
        Seq::empty()
    } else {
        escape_backslashes(s.drop_last()) + if s.last() == '\\' {
            seq!['\\', '\\']
        } else {
            seq![s.last()]
        }
    }
}

/// One `pub mod` line per module, including its generated file by absolute path.
pub open spec fn include_glue(mods: Seq<(Seq<char>, Seq<char>)>) -> Seq<char>
    decreases mods.len(),
{
    if mods.len() == 0 {
        Seq::empty()
    } else {
        include_glue(mods.drop_last()) + "pub mod "@ + mods.last().0 + " { include!(\""@ + escape_backslashes(
            mods.last().1,
        ) + "\"); }\n"@
    }
}

/// The `main.rs` of the generated app: the module glue, then a `main` that
/// evaluates the entry expression (or does nothing).
pub open spec fn spec_main_rs(mods: Seq<(Seq<char>, Seq<char>)>, entry: Option<Seq<char>>) -> Seq<char> {
    include_glue(mods) + match entry {
        Some(e) => "\n\nfn main() {\n    // call user-provided entry expression\n    let _ = { "@ + e + " };\n}\n"@,
        None => "\n\nfn main() {\n    // no entry specified; do nothing\n}\n"@,
    }
}

pub open spec fn mods_view(v: Seq<(String, String)>) -> Seq<(Seq<char>, Seq<char>)> {
    v.map_values(|e: (String, String)| (e.0@, e.1@))
}

fn push_escaped(out: &mut String, s: &String)
    ensures
        final(out)@ == old(out)@ + escape_backslashes(s@),
{
    let v = chars_of(s.as_str());
    let mut k: usize = 0;
    while k < v.len()
        invariant
            k <= v@.len(),
            v@ == s@,
            out@ == old(out)@ + escape_backslashes(v@.take(k as int)),
        decreases v@.len() - k,
    {
        assert(v@.take(k + 1).drop_last() =~= v@.take(k as int));
        if v[k] == '\\' {
            push_char(out, '\\');
            push_char(out, '\\');
        } else {
            push_char(out, v[k]);
        }
        assert(out@ =~= old(out)@ + escape_backslashes(v@.take(k + 1)));
        k += 1;
    }
    assert(v@.take(k as int) =~= v@);
}

/// The text of the generated app's `main.rs` for modules (name, absolute path of
/// the generated file) and an optional entry expression.
pub fn main_rs_text(mods: &Vec<(String, String)>, entry: Option<&str>) -> (r: String)
    ensures
        r@ == spec_main_rs(mods_view(mods@), match entry {
            Some(e) => Some(e@),
            None => None,
        }),
{
    let ghost mv = mods_view(mods@);
    let mut out = String::new();
    let mut k: usize = 0;
    assert(mv.take(0) =~= Seq::<(Seq<char>, Seq<char>)>::empty());
    while k < mods.len()
        invariant
            k <= mods@.len(),
            mv == mods_view(mods@),
            out@ == include_glue(mv.take(k as int)),
        decreases mods@.len() - k,
    {
        push_str(&mut out, "pub mod ");
        push_str(&mut out, mods[k].0.as_str());
        push_str(&mut out, " { include!(\"");
        push_escaped(&mut out, &mods[k].1);
        push_str(&mut out, "\"); }\n");
        assert(mv.take(k + 1).drop_last() =~= mv.take(k as int));
        assert(mv.take(k + 1).last() == (mods@[k as int].0@, mods@[k as int].1@));
        assert(out@ =~= include_glue(mv.take(k + 1)));
        k += 1;
    }
    assert(mv.take(k as int) =~= mv);
    let ghost glue = out@;
    match entry {
        Some(e) => {
            push_str(&mut out, "\n\nfn main() {\n    // call user-provided entry expression\n    let _ = { ");
            push_str(&mut out, e);
            push_str(&mut out, " };\n}\n");
            assert(out@ =~= glue + ("\n\nfn main() {\n    // call user-provided entry expression\n    let _ = { "@ + e@ + " };\n}\n"@));
        },
        None => {
            push_str(&mut out, "\n\nfn main() {\n    // no entry specified; do nothing\n}\n");
        },
    }
    out
}

/// Lower-case hexadecimal digits of `n`.
pub open spec fn hex(n: nat) -> Seq<char>
    decreases n,
{
    if n < 16 {
        seq![hex_digit(n)]
    } else {
        hex(n / 16).push(hex_digit(n % 16))
    }
}

pub open spec fn hex_digit(d: nat) -> char {
    if d < 10 {
        crate::transpile::digit_char(d)
    } else if d == 10 {
        'a'
    } else if d == 11 {
        'b'
    } else if d == 12 {
        'c'
    } else if d == 13 {
        'd'
    } else if d == 14 {
        'e'
    } else {
        'f'
    }
}

fn hex_digit_of(d: u128) -> (c: char)
    requires
        d < 16,
    ensures
        c == hex_digit(d as nat),
{
    if d == 0 {
        '0'
    } else if d == 1 {
        '1'
    } else if d == 2 {
        '2'
    } else if d == 3 {
        '3'
    } else if d == 4 {
        '4'
    } else if d == 5 {
        '5'
    } else if d == 6 {
        '6'
    } else if d == 7 {
        '7'
    } else if d == 8 {
        '8'
    } else if d == 9 {
        '9'
    } else if d == 10 {
        'a'
    } else if d == 11 {
        'b'
    } else if d == 12 {
        'c'
    } else if d == 13 {
        'd'
    } else if d == 14 {
        'e'
    } else {
        'f'
    }
}

fn push_hex(out: &mut String, n: u128)
    ensures
        final(out)@ == old(out)@ + hex(n as nat),
    decreases n,
{
    if n >= 16 {
        push_hex(out, n / 16);
    }
    push_char(out, hex_digit_of(n % 16));
    proof {
        if n >= 16 {
            assert(old(out)@ + hex(n as nat) =~= old(out)@ + hex((n / 16) as nat) + seq![hex_digit((n % 16) as nat)]);
        }
    }
}

/// The name of a temporary build directory for a time stamp in nanoseconds.
pub fn build_dir_name(nanos: u128) -> (r: String)
    ensures
        r@ == "tsrust_build_"@ + hex(nanos as nat),
{
    let mut out = String::new();
    push_str(&mut out, "tsrust_build_");
    push_hex(&mut out, nanos);
    out
}

/// Whether `path` names a tsrust source file: its file name has the extension
/// `tsrust`. For paths whose file name every platform reads alike (`ext_ok`) that
/// is `extension_spec`'s; for others the platform's rules decide.
pub fn is_source_file(path: &str) -> (r: bool)
    ensures
        ext_ok(path@) ==> (r <==> extension_spec(path@) == Some("tsrust"@)),
{
    proof {
        reveal_strlit("tsrust");
    }
    match crate::filepaths::path_extension(path) {
        Some(e) => {
            let v = chars_of(e.as_str());
            if v.len() == 6 && matches_at(&v, 0, "tsrust") {
                assert(v@ =~= "tsrust"@);
                true
            } else {
                false
            }
        },
        None => false,
    }
}

/// The name of the module a source file makes: its file name without the
/// extension (`file_stem_spec` for paths that every platform reads alike and that
/// hold no backslash), or `mod` where it has no file name.
pub fn module_name_of(rel: &str) -> (r: String)
    ensures
        ext_ok(rel@) && !rel@.contains('\\') ==> r@ == file_stem_spec(rel@),
{
    match crate::filepaths::path_file_stem(rel) {
        Some(s) => s,
        None => {
            let mut d = String::new();
            push_str(&mut d, "mod");
            d
        },
    }
}

/// A build needs at least one source file: `Ok` when `count` files were found,
/// else the error naming where none was.
pub fn require_sources(count: usize, input: &str) -> (r: Result<(), String>)
    ensures
        r is Ok <==> count > 0,
        r matches Err(e) ==> e@ == "No .tsrust files found under "@ + input@,
{
    if count > 0 {
        Ok(())
    } else {
        let mut e = String::new();
        push_str(&mut e, "No .tsrust files found under ");
        push_str(&mut e, input);
        Err(e)
    }
}

} // verus!
