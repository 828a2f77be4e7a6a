//! Building an archive from a list of files, and the `$PBOPREFIX$` text that
//! carries an archive's metadata on disk.

use crate::codec::{push_bytes, text_from_utf8, PboError};
use crate::entries::{
    entry_list, get_entry, insert_entry, keys_unique, lemma_lookup_with_entry, lemma_with_entry, lookup, new_table,
    with_entry,
};
use crate::format::{lemma_meta_insert_unique, meta_index, meta_insert, parse_archive, prefix_key};
use crate::glob::{allowed_by, file_allowed};
use crate::pbo::{find_meta, meta_set, meta_view, PBO};
use vstd::prelude::*;
use vstd::utf8::{decode_utf8, encode_utf8, valid_utf8};

verus! {

/// Index of the first `c` in `s`.
pub open spec fn char_index(s: Seq<char>, c: char) -> Option<int>
    decreases s.len(),
{
    if s.len() == 0 {
        None
    } else if s[0] == c {
        Some(0)
    } else {
        match char_index(s.drop_first(), c) {
            Some(i) => Some(i + 1),
            None => None,
        }
    }
}

pub proof fn lemma_char_index(s: Seq<char>, c: char)
    ensures
        char_index(s, c) matches Some(i) ==> 0 <= i < s.len(),
    decreases s.len(),
{
    if s.len() > 0 {
        lemma_char_index(s.drop_first(), c);
    }
}

/// One line of `$PBOPREFIX$`: `key=value` splits at the first `=`; a line
/// without `=` sets `prefix`.
pub open spec fn apply_line(m: Seq<(Seq<char>, Seq<char>)>, line: Seq<char>) -> Seq<(Seq<char>, Seq<char>)> {
    match char_index(line, '=') {
        Some(i) => meta_insert(m, line.subrange(0, i), line.subrange(i + 1, line.len() as int)),
        None => meta_insert(m, prefix_key(), line),
    }
}

/// The lines of `t` up to the first empty one, applied to `m` in order.
pub open spec fn apply_prefix_text(m: Seq<(Seq<char>, Seq<char>)>, t: Seq<char>) -> Seq<(Seq<char>, Seq<char>)>
    decreases t.len(),
    via apply_prefix_text_decreases
{
    match char_index(t, '\n') {
        Some(i) => if i == 0 {
            m
        } else {
            apply_prefix_text(apply_line(m, t.subrange(0, i)), t.subrange(i + 1, t.len() as int))
        },
        None => if t.len() == 0 {
            m
        } else {
            apply_line(m, t)
        },
    }
}

#[via_fn]
proof fn apply_prefix_text_decreases(m: Seq<(Seq<char>, Seq<char>)>, t: Seq<char>) {
    lemma_char_index(t, '\n');
}

/// A relative path with its `/` separators turned into `\`.
pub open spec fn normalized(n: Seq<char>) -> Seq<char> {
    n.map_values(|c: char| if c == '/' { '\\' } else { c })
}

pub open spec fn pattern_bytes(pats: Seq<String>) -> Seq<Seq<u8>> {
    pats.map_values(|p: String| encode_utf8(p@))
}

/// `f` is not excluded and its path, with `\` separators, is `lit`.
pub open spec fn allowed_named(f: (Seq<char>, Seq<u8>), pats: Seq<Seq<u8>>, lit: Seq<char>) -> bool {
    normalized(f.0) == lit && allowed_by(encode_utf8(normalized(f.0)), pats)
}

/// The compiled content of the last `config.cpp` that is not excluded.
pub open spec fn config_content(files: Seq<(Seq<char>, Seq<u8>)>, pats: Seq<Seq<u8>>) -> Option<Seq<u8>>
    decreases files.len(),
{
    if files.len() == 0 {
        None
    } else if allowed_named(files.last(), pats, "config.cpp"@) {
        Some(files.last().1)
    } else {
        config_content(files.drop_last(), pats)
    }
}

/// The entries and metadata after taking in one file. Where `compiled`
/// holds, a compiled `config.cpp` is among the files and a literal
/// `config.bin` gives way to it.
pub open spec fn pack_step(
    st: (Seq<(Seq<char>, Seq<u8>)>, Seq<(Seq<char>, Seq<char>)>),
    f: (Seq<char>, Seq<u8>),
    pats: Seq<Seq<u8>>,
    compiled: bool,
) -> (Seq<(Seq<char>, Seq<u8>)>, Seq<(Seq<char>, Seq<char>)>) {
    let name = normalized(f.0);
    if !allowed_by(encode_utf8(name), pats) {
        st
    } else if name == "$PBOPREFIX$"@ {
        if valid_utf8(f.1) {
            (st.0, apply_prefix_text(st.1, decode_utf8(f.1)))
        } else {
            st
        }
    } else if name == "config.cpp"@ {
        (with_entry(st.0, "config.bin"@, f.1), st.1)
    } else if name == "config.bin"@ && compiled {
        st
    } else {
        (with_entry(st.0, name, f.1), st.1)
    }
}

/// The entries and metadata after taking in every file, in order.
pub open spec fn pack_all(files: Seq<(Seq<char>, Seq<u8>)>, pats: Seq<Seq<u8>>, compiled: bool) -> (Seq<(Seq<char>, Seq<u8>)>, Seq<(Seq<char>, Seq<char>)>)
    decreases files.len(),
{
    if files.len() == 0 {
        (Seq::empty(), Seq::empty())
    } else {
        pack_step(pack_all(files.drop_last(), pats, compiled), files.last(), pats, compiled)
    }
}

proof fn lemma_apply_prefix_unique(m: Seq<(Seq<char>, Seq<char>)>, t: Seq<char>)
    requires
        keys_unique(m),
    ensures
        keys_unique(apply_prefix_text(m, t)),
    decreases t.len(),
{
    lemma_char_index(t, '\n');
    match char_index(t, '\n') {
        Some(i) => if i != 0 {
            let line = t.subrange(0, i);
            lemma_apply_line_unique(m, line);
            lemma_apply_prefix_unique(apply_line(m, line), t.subrange(i + 1, t.len() as int));
        },
        None => if t.len() != 0 {
            lemma_apply_line_unique(m, t);
        },
    }
}

proof fn lemma_apply_line_unique(m: Seq<(Seq<char>, Seq<char>)>, line: Seq<char>)
    requires
        keys_unique(m),
    ensures
        keys_unique(apply_line(m, line)),
{
    match char_index(line, '=') {
        Some(i) => lemma_meta_insert_unique(m, line.subrange(0, i), line.subrange(i + 1, line.len() as int)),
        None => lemma_meta_insert_unique(m, prefix_key(), line),
    }
}

/// Packing gives unique names and keys, and where a compiled `config.cpp`
/// is among the files, `config.bin` holds the last one's content.
proof fn lemma_pack_all(files: Seq<(Seq<char>, Seq<u8>)>, pats: Seq<Seq<u8>>, compiled: bool)
    ensures
        keys_unique(pack_all(files, pats, compiled).0),
        keys_unique(pack_all(files, pats, compiled).1),
        compiled ==> (config_content(files, pats) matches Some(c) ==> lookup(pack_all(files, pats, compiled).0, "config.bin"@) == Some(c)),
    decreases files.len(),
{
    if files.len() > 0 {
        let d = files.drop_last();
        let f = files.last();
        let prev = pack_all(d, pats, compiled);
        lemma_pack_all(d, pats, compiled);
        let name = normalized(f.0);
        reveal_strlit("$PBOPREFIX$");
        reveal_strlit("config.cpp");
        reveal_strlit("config.bin");
        if !allowed_by(encode_utf8(name), pats) {
        } else if name == "$PBOPREFIX$"@ {
            assert(name.len() != "config.cpp"@.len());
            if valid_utf8(f.1) {
                lemma_apply_prefix_unique(prev.1, decode_utf8(f.1));
            }
        } else if name == "config.cpp"@ {
            lemma_with_entry(prev.0, "config.bin"@, f.1);
            lemma_lookup_with_entry(prev.0, "config.bin"@, f.1, "config.bin"@);
        } else if name == "config.bin"@ && compiled {
        } else {
            lemma_with_entry(prev.0, name, f.1);
            lemma_lookup_with_entry(prev.0, name, f.1, "config.bin"@);
        }
    }
}

/// The metadata with `prefix` set to `root` where no file set it.
pub open spec fn with_default_prefix(m: Seq<(Seq<char>, Seq<char>)>, root: Seq<char>) -> Seq<(Seq<char>, Seq<char>)> {
    if meta_index(m, prefix_key()) is Some {
        m
    } else {
        meta_insert(m, prefix_key(), root)
    }
}

/// Relies on str::split_once with a `char` pattern: the text before and
/// after the first occurrence of `c`.
#[verifier::external_body]
fn split_at_char(s: &str, c: char) -> (r: Option<(String, String)>)
    ensures
        match char_index(s@, c) {
            Some(i) => r matches Some((a, b)) && a@ == s@.subrange(0, i) && b@ == s@.subrange(
                i + 1,
                s@.len() as int,
            ),
            None => r is None,
        },
{
    s.split_once(c).map(|(a, b)| (a.to_string(), b.to_string()))
}

/// Relies on str::replace: every `/` becomes `\`.
#[verifier::external_body]
fn backslashed(s: &str) -> (r: String)
    ensures
        r@ == normalized(s@),
{
    s.replace("/", "\\")
}

/// Applies one `$PBOPREFIX$` line to `m`.
pub fn apply_prefix_line(m: &mut Vec<(String, String)>, line: String)
    ensures
        meta_view(final(m)@) == apply_line(meta_view(old(m)@), line@),
{
    match split_at_char(line.as_str(), '=') {
        Some((k, v)) => meta_set(m, k, v),
        None => meta_set(m, "prefix".to_owned(), line),
    }
}

/// Applies the lines of a `$PBOPREFIX$` text, up to the first empty line.
pub fn apply_prefix_file(m: &mut Vec<(String, String)>, text: String)
    ensures
        meta_view(final(m)@) == apply_prefix_text(meta_view(old(m)@), text@),
{
    let ghost goal = apply_prefix_text(meta_view(m@), text@);
    let mut rest = text;
    loop
        invariant
            goal == apply_prefix_text(meta_view(old(m)@), text@),
            goal == apply_prefix_text(meta_view(m@), rest@),
        decreases rest@.len(),
    {
        proof {
            lemma_char_index(rest@, '\n');
        }
        match split_at_char(rest.as_str(), '\n') {
            Some((line, tail)) => {
                if line.as_str().is_empty() {
                    return;
                }
                apply_prefix_line(m, line);
                rest = tail;
            },
            None => {
                if !rest.as_str().is_empty() {
                    apply_prefix_line(m, rest);
                }
                return;
            },
        }
    }
}

impl PBO {
    /// Builds an archive from files given as (relative path, content), the
    /// walk of a directory named `root_name`. Paths get `\` separators; a
    /// path matched by an exclusion pattern is skipped; `$PBOPREFIX$` sets
    /// metadata; `config.cpp`, whose content the caller has compiled, is
    /// stored as `config.bin`; any other file is stored as it is. Where no
    /// `prefix` was set, it is `root_name`.
    #[verifier::rlimit(40)]
    pub fn from_files(root_name: String, files: Vec<(String, Vec<u8>)>, exclude_patterns: &Vec<String>) -> (r: PBO)
        ensures
            r.entries() == pack_all(files@.map_values(|f: (String, Vec<u8>)| (f.0@, f.1@)), pattern_bytes(exclude_patterns@), config_content(files@.map_values(|f: (String, Vec<u8>)| (f.0@, f.1@)), pattern_bytes(exclude_patterns@)) is Some).0,
            r.metadata() == with_default_prefix(
                pack_all(files@.map_values(|f: (String, Vec<u8>)| (f.0@, f.1@)), pattern_bytes(exclude_patterns@), config_content(files@.map_values(|f: (String, Vec<u8>)| (f.0@, f.1@)), pattern_bytes(exclude_patterns@)) is Some).1,
                root_name@,
            ),
            config_content(files@.map_values(|f: (String, Vec<u8>)| (f.0@, f.1@)), pattern_bytes(exclude_patterns@)) matches Some(c)
                ==> lookup(r.entries(), "config.bin"@) == Some(c),
            keys_unique(r.entries()),
            keys_unique(r.metadata()),
            r.headers@.len() == 0,
            r.checksum is None,
    {
        let ghost fv = files@.map_values(|f: (String, Vec<u8>)| (f.0@, f.1@));
        let ghost pats = pattern_bytes(exclude_patterns@);
        let n = files.len();
        let mut compiled = false;
        let mut j: usize = 0;
        while j < files.len()
            invariant
                0 <= j <= files@.len(),
                fv == files@.map_values(|f: (String, Vec<u8>)| (f.0@, f.1@)),
                pats == pattern_bytes(exclude_patterns@),
                compiled == config_content(fv.subrange(0, j as int), pats) is Some,
            decreases files@.len() - j,
        {
            let ghost cur = fv.subrange(0, j + 1);
            assert(cur.drop_last() =~= fv.subrange(0, j as int));
            assert(cur.last() == (files@[j as int].0@, files@[j as int].1@));
            let name = backslashed(files[j].0.as_str());
            assert(exclude_patterns@.map_values(|p: String| encode_utf8(p@)) == pats);
            if file_allowed(&name, exclude_patterns) && name == "config.cpp".to_owned() {
                compiled = true;
            }
            j = j + 1;
        }
        assert(fv.subrange(0, j as int) =~= fv);
        let mut table = new_table();
        let mut meta: Vec<(String, String)> = Vec::new();
        let mut files = files;
        let mut rev: Vec<(String, Vec<u8>)> = Vec::new();
        while files.len() > 0
            invariant
                rev@.len() + files@.len() == fv.len(),
                forall|t: int| 0 <= t < files@.len() ==> (#[trigger] files@[t]).0@ == fv[t].0 && files@[t].1@ == fv[t].1,
                forall|t: int| 0 <= t < rev@.len() ==> (#[trigger] rev@[t]).0@ == fv[fv.len() - 1 - t].0 && rev@[t].1@ == fv[fv.len() - 1 - t].1,
            decreases files@.len(),
        {
            let f = files.pop().unwrap();
            rev.push(f);
        }
        assert(meta_view(meta@) =~= Seq::<(Seq<char>, Seq<char>)>::empty());
        let mut i: usize = 0;
        while rev.len() > 0
            invariant
                rev@.len() + i == fv.len(),
                fv.len() == n,
                forall|t: int| 0 <= t < rev@.len() ==> (#[trigger] rev@[t]).0@ == fv[fv.len() - 1 - t].0 && rev@[t].1@ == fv[fv.len() - 1 - t].1,
                pats == pattern_bytes(exclude_patterns@),
                (entry_list(table), meta_view(meta@)) == pack_all(fv.subrange(0, i as int), pats, compiled),
                compiled == config_content(fv, pats) is Some,
            decreases rev@.len(),
        {
            let (path, content) = rev.pop().unwrap();
            let ghost cur = fv.subrange(0, i + 1);
            assert(cur.drop_last() =~= fv.subrange(0, i as int));
            assert(cur.last() == (path@, content@));
            let name = backslashed(path.as_str());
            if file_allowed(&name, exclude_patterns) {
                assert(exclude_patterns@.map_values(|p: String| encode_utf8(p@)) == pats);
                if name == "$PBOPREFIX$".to_owned() {
                    match text_from_utf8(content.as_slice()) {
                        Some(text) => apply_prefix_file(&mut meta, text),
                        None => {},
                    }
                } else if name == "config.cpp".to_owned() {
                    insert_entry(&mut table, "config.bin".to_owned(), content);
                } else if compiled && name == "config.bin".to_owned() {
                } else {
                    insert_entry(&mut table, name, content);
                }
            } else {
                assert(exclude_patterns@.map_values(|p: String| encode_utf8(p@)) == pats);
            }
            i = i + 1;
        }
        assert(fv.subrange(0, i as int) =~= fv);
        proof {
            lemma_pack_all(fv, pats, compiled);
        }
        let key = "prefix".to_owned();
        if find_meta(&meta, &key).is_none() {
            meta_set(&mut meta, key, root_name);
        }
        proof {
            reveal_strlit("config.bin");
        }
        PBO { files: table, header_extensions: meta, headers: Vec::new(), checksum: None }
    }

    /// The content of the entry named `name`, or `NotFound`.
    pub fn get_file(&self, name: &String) -> (r: Result<&Vec<u8>, PboError>)
        ensures
            match r {
                Ok(v) => lookup(self.entries(), name@) == Some(v@),
                Err(e) => e == PboError::NotFound && lookup(self.entries(), name@) is None,
            },
    {
        match get_entry(&self.files, name) {
            Some(v) => Ok(v),
            None => Err(PboError::NotFound),
        }
    }
}

/// The content of the entry `name` of the archive `input`: a decoding error
/// where the archive does not decode, `NotFound` where it has no such entry.
pub fn cat_entry(input: &[u8], name: &String) -> (r: Result<Vec<u8>, PboError>)
    ensures
        match parse_archive(input@) {
            Err(e) => r == Err::<Vec<u8>, PboError>(e),
            Ok(a) => match lookup(a.entries, name@) {
                Some(v) => r matches Ok(w) && w@ == v,
                None => r == Err::<Vec<u8>, PboError>(PboError::NotFound),
            },
        },
{
    let pbo = match PBO::read(input) {
        Ok(p) => p,
        Err(e) => return Err(e),
    };
    match pbo.get_file(name) {
        Ok(v) => Ok(vstd::slice::slice_to_vec(v.as_slice())),
        Err(e) => Err(e),
    }
}

/// The bytes of a `key=value` line.
pub open spec fn line_bytes(k: Seq<char>, v: Seq<char>) -> Seq<u8> {
    encode_utf8(k) + seq![61u8] + encode_utf8(v) + seq![10u8]
}

/// The `$PBOPREFIX$` text that an unpacked archive gets: one `key=value`
/// line per metadata pair, in order.
pub open spec fn prefix_text(m: Seq<(Seq<char>, Seq<char>)>) -> Seq<u8>
    decreases m.len(),
{
    if m.len() == 0 {
        Seq::empty()
    } else {
        prefix_text(m.drop_last()) + line_bytes(m.last().0, m.last().1)
    }
}

impl PBO {
    /// The `$PBOPREFIX$` file that re-creates this archive's metadata.
    pub fn prefix_file(&self) -> (r: Vec<u8>)
        ensures
            r@ == prefix_text(self.metadata()),
    {
        let ghost mv = self.metadata();
        let mut out: Vec<u8> = Vec::new();
        let mut i: usize = 0;
        while i < self.header_extensions.len()
            invariant
                0 <= i <= self.header_extensions@.len(),
                mv == meta_view(self.header_extensions@),
                out@ == prefix_text(mv.subrange(0, i as int)),
            decreases self.header_extensions@.len() - i,
        {
            assert(mv.subrange(0, i + 1).drop_last() =~= mv.subrange(0, i as int));
            let ghost before = out@;
            push_bytes(&mut out, self.header_extensions[i].0.as_str().as_bytes());
            out.push(61u8);
            push_bytes(&mut out, self.header_extensions[i].1.as_str().as_bytes());
            out.push(10u8);
            assert(out@ =~= before + line_bytes(mv[i as int].0, mv[i as int].1));
            i = i + 1;
        }
        assert(mv.subrange(0, i as int) =~= mv);
        out
    }
}


/// The characters of the `$PBOPREFIX$` text: `key=value` and a line break
/// per pair.
pub open spec fn prefix_chars(m: Seq<(Seq<char>, Seq<char>)>) -> Seq<char>
    decreases m.len(),
{
    if m.len() == 0 {
        Seq::empty()
    } else {
        prefix_chars(m.drop_last()) + (m.last().0 + seq!['='] + m.last().1 + seq!['\n'])
    }
}

proof fn lemma_encode_concat(a: Seq<char>, b: Seq<char>)
    ensures
        encode_utf8(a + b) == encode_utf8(a) + encode_utf8(b),
    decreases a.len(),
{
    if a.len() == 0 {
        assert(a + b =~= b);
        assert(encode_utf8(a) =~= Seq::<u8>::empty());
        assert(encode_utf8(a) + encode_utf8(b) =~= encode_utf8(b));
    } else {
        lemma_encode_concat(a.drop_first(), b);
        assert((a + b).drop_first() =~= a.drop_first() + b);
        assert((a + b)[0] == a[0]);
        assert(encode_utf8(a + b) =~= encode_utf8(a) + encode_utf8(b));
    }
}

proof fn lemma_prefix_text_chars(m: Seq<(Seq<char>, Seq<char>)>)
    ensures
        prefix_text(m) == encode_utf8(prefix_chars(m)),
    decreases m.len(),
{
    if m.len() > 0 {
        lemma_prefix_text_chars(m.drop_last());
        let (k, v) = m.last();
        let eq = seq!['='];
        let nl = seq!['\n'];
        assert(encode_utf8(eq) == seq![61u8]) by {
            assert(eq.drop_first() =~= Seq::<char>::empty());
            assert(encode_utf8(eq.drop_first()) =~= Seq::<u8>::empty());
            assert(('=' as u32) == 61u32);
            assert(((61u32 & 0x7F) as u8) == 61u8) by (bit_vector);
            assert(vstd::utf8::encode_scalar(61u32) =~= seq![61u8]);
            assert(encode_utf8(eq) =~= seq![61u8]);
        }
        assert(encode_utf8(nl) == seq![10u8]) by {
            assert(nl.drop_first() =~= Seq::<char>::empty());
            assert(encode_utf8(nl.drop_first()) =~= Seq::<u8>::empty());
            assert(('\n' as u32) == 10u32);
            assert(((10u32 & 0x7F) as u8) == 10u8) by (bit_vector);
            assert(vstd::utf8::encode_scalar(10u32) =~= seq![10u8]);
            assert(encode_utf8(nl) =~= seq![10u8]);
        }
        lemma_encode_concat(k, eq);
        lemma_encode_concat(k + eq, v);
        lemma_encode_concat(k + eq + v, nl);
        lemma_encode_concat(prefix_chars(m.drop_last()), k + eq + v + nl);
        assert(prefix_text(m) =~= encode_utf8(prefix_chars(m)));
    }
}

proof fn lemma_prefix_chars_front(m: Seq<(Seq<char>, Seq<char>)>)
    requires
        m.len() > 0,
    ensures
        prefix_chars(m) == (m[0].0 + seq!['='] + m[0].1 + seq!['\n']) + prefix_chars(m.drop_first()),
    decreases m.len(),
{
    if m.len() == 1 {
        assert(m.drop_last() =~= Seq::<(Seq<char>, Seq<char>)>::empty());
        assert(m.drop_first() =~= Seq::<(Seq<char>, Seq<char>)>::empty());
        assert(prefix_chars(m) =~= (m[0].0 + seq!['='] + m[0].1 + seq!['\n']) + prefix_chars(m.drop_first()));
    } else {
        let u = m.drop_last();
        lemma_prefix_chars_front(u);
        assert(u[0] == m[0]);
        assert(m.drop_first().drop_last() =~= u.drop_first());
        assert(m.drop_first().last() == m.last());
        assert(prefix_chars(m) =~= (m[0].0 + seq!['='] + m[0].1 + seq!['\n']) + prefix_chars(m.drop_first()));
    }
}

proof fn lemma_char_index_at(s: Seq<char>, c: char, i: int)
    requires
        0 <= i < s.len(),
        s[i] == c,
        forall|j: int| 0 <= j < i ==> s[j] != c,
    ensures
        char_index(s, c) == Some(i),
    decreases i,
{
    if i > 0 {
        assert forall|j: int| 0 <= j < i - 1 implies s.drop_first()[j] != c by {
            assert(s.drop_first()[j] == s[j + 1]);
        }
        lemma_char_index_at(s.drop_first(), c, i - 1);
    }
}

/// Metadata that a `$PBOPREFIX$` text can carry: keys without `=` or line
/// breaks, values without line breaks.
pub open spec fn prefix_safe(m: Seq<(Seq<char>, Seq<char>)>) -> bool {
    forall|i: int| 0 <= i < m.len() ==> !(#[trigger] m[i]).0.contains('=') && !m[i].0.contains('\n') && !m[i].1.contains('\n')
}

#[verifier::rlimit(40)]
proof fn lemma_prefix_parse(acc: Seq<(Seq<char>, Seq<char>)>, m: Seq<(Seq<char>, Seq<char>)>)
    requires
        prefix_safe(m),
        keys_unique(acc + m),
    ensures
        apply_prefix_text(acc, prefix_chars(m)) == acc + m,
    decreases m.len(),
{
    if m.len() == 0 {
        assert(prefix_chars(m) =~= Seq::<char>::empty());
        assert(acc + m =~= acc);
    } else {
        lemma_prefix_chars_front(m);
        let (k, v) = m[0];
        let line = k + seq!['='] + v;
        let rest = prefix_chars(m.drop_first());
        let t = prefix_chars(m);
        assert(t =~= line + seq!['\n'] + rest);
        assert(!k.contains('=') && !k.contains('\n') && !v.contains('\n'));
        assert forall|j: int| 0 <= j < line.len() implies t[j] != '\n' by {
            if j < k.len() {
                assert(t[j] == k[j]);
                assert(!k.contains('\n'));
            } else if j > k.len() {
                assert(t[j] == v[j - k.len() - 1]);
            }
        }
        lemma_char_index_at(t, '\n', line.len() as int);
        assert(t.subrange(0, line.len() as int) =~= line);
        assert(t.subrange(line.len() + 1int, t.len() as int) =~= rest);
        assert forall|j: int| 0 <= j < k.len() implies line[j] != '=' by {
            assert(line[j] == k[j]);
        }
        lemma_char_index_at(line, '=', k.len() as int);
        assert(line.subrange(0, k.len() as int) =~= k);
        assert(line.subrange(k.len() + 1int, line.len() as int) =~= v);
        let am = acc + m;
        assert(forall|j: int| 0 <= j < acc.len() ==> acc[j].0 != k) by {
            assert forall|j: int| 0 <= j < acc.len() implies acc[j].0 != k by {
                assert(am[j] == acc[j] && am[acc.len() as int] == m[0]);
            }
        }
        crate::format::lemma_meta_index(acc, k);
        assert(meta_insert(acc, k, v) == acc.push((k, v)));
        let d = m.drop_first();
        assert(prefix_safe(d)) by {
            assert forall|i: int| 0 <= i < d.len() implies !(#[trigger] d[i]).0.contains('=') && !d[i].0.contains('\n') && !d[i].1.contains('\n') by {
                assert(d[i] == m[i + 1]);
            }
        }
        assert(acc.push((k, v)) + d =~= am);
        lemma_prefix_parse(acc.push((k, v)), d);
    }
}

/// Unpacking writes one `key=value` line per metadata pair; packing that
/// text again gives back the same metadata, wherever keys are unique and
/// hold no `=` or line break, and values hold no line break.
pub proof fn lemma_prefix_file_round_trip(p: PBO)
    requires
        keys_unique(p.metadata()),
        prefix_safe(p.metadata()),
    ensures
        valid_utf8(prefix_text(p.metadata())),
        apply_prefix_text(Seq::empty(), decode_utf8(prefix_text(p.metadata()))) == p.metadata(),
{
    let m = p.metadata();
    lemma_prefix_text_chars(m);
    vstd::utf8::encode_utf8_valid_utf8(prefix_chars(m));
    vstd::utf8::encode_utf8_decode_utf8(prefix_chars(m));
    assert(Seq::<(Seq<char>, Seq<char>)>::empty() + m =~= m);
    lemma_prefix_parse(Seq::empty(), m);
}

} // verus!
