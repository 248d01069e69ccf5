//! The line-oriented text form of entries:
//! `[<allow>:][<flags>:]<kind>:<name>:<perms>`, one entry per line, `#`
//! starting a comment.
use vstd::prelude::*;
use vstd::string::*;
use crate::bits::{Perm, Flag, DEFAULT};
use crate::entry::{AclEntry, AclEntryKind, EntryView, views};
use crate::error::{AclError, ParseReason};

verus! {

/// White space: the characters of Unicode's White_Space property.
pub open spec fn is_ws(c: char) -> bool {
    ('\t' <= c && c <= '\r') || c == ' ' || c == '\u{85}' || c == '\u{a0}' || c == '\u{1680}'
        || ('\u{2000}' <= c && c <= '\u{200a}') || c == '\u{2028}' || c == '\u{2029}' || c
        == '\u{202f}' || c == '\u{205f}' || c == '\u{3000}'
}

/// The text without its leading white space.
pub open spec fn trim_start(s: Seq<char>) -> Seq<char>
    decreases s.len(),
{
    if s.len() > 0 && is_ws(s[0]) {
        trim_start(s.drop_first())
    } else {
        s
    }
}

/// The text without its trailing white space.
pub open spec fn trim_end(s: Seq<char>) -> Seq<char>
    decreases s.len(),
{
    if s.len() > 0 && is_ws(s.last()) {
        trim_end(s.drop_last())
    } else {
        s
    }
}

pub open spec fn trim(s: Seq<char>) -> Seq<char> {
    trim_end(trim_start(s))
}

/// The text before the first `#`.
pub open spec fn before_hash(s: Seq<char>) -> Seq<char>
    decreases s.len(),
{
    if s.len() == 0 {
        s
    } else if s[0] == '#' {
        Seq::empty()
    } else {
        seq![s[0]] + before_hash(s.drop_first())
    }
}

/// The pieces of `s` between occurrences of `sep`; one piece more than
/// there are separators.
pub open spec fn split(s: Seq<char>, sep: char) -> Seq<Seq<char>>
    decreases s.len(),
{
    if s.len() == 0 {
        seq![Seq::empty()]
    } else if s.last() == sep {
        split(s.drop_last(), sep).push(Seq::empty())
    } else {
        let p = split(s.drop_last(), sep);
        p.update(p.len() - 1, p.last().push(s.last()))
    }
}

/// The pieces joined with commas.
pub open spec fn join(ns: Seq<Seq<char>>) -> Seq<char>
    decreases ns.len(),
{
    if ns.len() == 0 {
        Seq::empty()
    } else if ns.len() == 1 {
        ns[0]
    } else {
        join(ns.drop_last()) + seq![','] + ns.last()
    }
}

pub open spec fn trim_all(fs: Seq<Seq<char>>) -> Seq<Seq<char>> {
    fs.map_values(|f: Seq<char>| trim(f))
}

/// The two vocabularies of named bits.
#[derive(Clone, Copy, Debug, PartialEq, Eq, Structural)]
pub enum Vocab {
    Perm,
    Flag,
}

pub open spec fn width(v: Vocab) -> int {
    match v {
        Vocab::Perm => 3,
        Vocab::Flag => 8,
    }
}

pub open spec fn bit_name(v: Vocab, i: int) -> Seq<char> {
    match v {
        Vocab::Perm => perm_name(i),
        Vocab::Flag => flag_name(i),
    }
}

pub open spec fn perm_name(i: int) -> Seq<char> {
    if i == 0 {
        seq!['r', 'e', 'a', 'd']
    } else if i == 1 {
        seq!['w', 'r', 'i', 't', 'e']
    } else {
        seq!['e', 'x', 'e', 'c', 'u', 't', 'e']
    }
}

pub open spec fn flag_name(i: int) -> Seq<char> {
    if i == 0 {
        seq!['d', 'e', 'f', 'e', 'r', '_', 'i', 'n', 'h', 'e', 'r', 'i', 't']
    } else if i == 1 {
        seq!['n', 'o', '_', 'i', 'n', 'h', 'e', 'r', 'i', 't']
    } else if i == 2 {
        seq!['i', 'n', 'h', 'e', 'r', 'i', 't', 'e', 'd']
    } else if i == 3 {
        seq!['f', 'i', 'l', 'e', '_', 'i', 'n', 'h', 'e', 'r', 'i', 't']
    } else if i == 4 {
        seq!['d', 'i', 'r', 'e', 'c', 't', 'o', 'r', 'y', '_', 'i', 'n', 'h', 'e', 'r', 'i', 't']
    } else if i == 5 {
        seq!['l', 'i', 'm', 'i', 't', '_', 'i', 'n', 'h', 'e', 'r', 'i', 't']
    } else if i == 6 {
        seq!['o', 'n', 'l', 'y', '_', 'i', 'n', 'h', 'e', 'r', 'i', 't']
    } else {
        seq!['d', 'e', 'f', 'a', 'u', 'l', 't']
    }
}

fn perm_name_str(i: u32) -> (r: &'static str)
    requires
        i < 3,
    ensures
        r@ == perm_name(i as int),
{
    if i == 0 {
        proof {
            reveal_strlit("read");
        }
        "read"
    } else if i == 1 {
        proof {
            reveal_strlit("write");
        }
        "write"
    } else {
        proof {
            reveal_strlit("execute");
        }
        "execute"
    }
}

fn flag_name_str(i: u32) -> (r: &'static str)
    requires
        i < 8,
    ensures
        r@ == flag_name(i as int),
{
    if i == 0 {
        proof {
            reveal_strlit("defer_inherit");
        }
        "defer_inherit"
    } else if i == 1 {
        proof {
            reveal_strlit("no_inherit");
        }
        "no_inherit"
    } else if i == 2 {
        proof {
            reveal_strlit("inherited");
        }
        "inherited"
    } else if i == 3 {
        proof {
            reveal_strlit("file_inherit");
        }
        "file_inherit"
    } else if i == 4 {
        proof {
            reveal_strlit("directory_inherit");
        }
        "directory_inherit"
    } else if i == 5 {
        proof {
            reveal_strlit("limit_inherit");
        }
        "limit_inherit"
    } else if i == 6 {
        proof {
            reveal_strlit("only_inherit");
        }
        "only_inherit"
    } else {
        proof {
            reveal_strlit("default");
        }
        "default"
    }
}

fn bit_name_str(v: Vocab, i: u32) -> (r: &'static str)
    requires
        i < width(v),
    ensures
        r@ == bit_name(v, i as int),
{
    match v {
        Vocab::Perm => perm_name_str(i),
        Vocab::Flag => flag_name_str(i),
    }
}

/// The position, from `i` on, of the name that `t` is.
pub open spec fn find_name(v: Vocab, t: Seq<char>, i: int) -> Option<int>
    decreases width(v) - i,
{
    if i < 0 || i >= width(v) {
        None
    } else if t == bit_name(v, i) {
        Some(i)
    } else {
        find_name(v, t, i + 1)
    }
}

pub open spec fn perm_letter(c: char) -> u32 {
    if c == 'r' {
        1
    } else if c == 'w' {
        2
    } else if c == 'x' {
        4
    } else {
        0
    }
}

/// The bits of a string of permission letters (`r`, `w`, `x`).
pub open spec fn letter_bits(t: Seq<char>) -> u32
    decreases t.len(),
{
    if t.len() == 0 {
        0
    } else {
        letter_bits(t.drop_last()) | perm_letter(t.last())
    }
}

pub open spec fn all_letters(t: Seq<char>) -> bool {
    forall|i: int| 0 <= i < t.len() ==> perm_letter(#[trigger] t[i]) != 0
}

/// The bits that one token of a list stands for: a full name, or an
/// abbreviation (`d` for default; a string of permission letters).
pub open spec fn token_bits(v: Vocab, t: Seq<char>) -> Option<u32> {
    if find_name(v, t, 0) is Some {
        Some((1u32 << (find_name(v, t, 0)->0 as u32)) as u32)
    } else if v == Vocab::Flag && t == seq!['d'] {
        Some(DEFAULT)
    } else if v == Vocab::Perm && t.len() > 0 && all_letters(t) {
        Some(letter_bits(t))
    } else {
        None
    }
}

/// Every token is recognised.
pub open spec fn all_known(v: Vocab, ts: Seq<Seq<char>>) -> bool {
    forall|i: int| 0 <= i < ts.len() ==> token_bits(v, #[trigger] ts[i]) is Some
}

/// The union of the bits of the tokens.
pub open spec fn or_fold(v: Vocab, ts: Seq<Seq<char>>) -> u32
    decreases ts.len(),
{
    if ts.len() == 0 {
        0
    } else {
        or_fold(v, ts.drop_last()) | token_bits(v, ts.last())->0
    }
}

/// The bits of a comma-separated list; the empty field is the empty set.
pub open spec fn list_bits(v: Vocab, f: Seq<char>) -> Option<u32> {
    if f.len() == 0 {
        Some(0)
    } else {
        let ts = trim_all(split(f, ','));
        if all_known(v, ts) {
            Some(or_fold(v, ts))
        } else {
            None
        }
    }
}

pub open spec fn kind_token(t: Seq<char>) -> Option<AclEntryKind> {
    if t == seq!['u', 's', 'e', 'r'] || t == seq!['u'] {
        Some(AclEntryKind::User)
    } else if t == seq!['g', 'r', 'o', 'u', 'p'] || t == seq!['g'] {
        Some(AclEntryKind::Group)
    } else if t == seq!['o', 't', 'h', 'e', 'r'] || t == seq!['o'] {
        Some(AclEntryKind::Other)
    } else if t == seq!['m', 'a', 's', 'k'] || t == seq!['m'] {
        Some(AclEntryKind::Mask)
    } else if t == seq!['e', 'v', 'e', 'r', 'y', 'o', 'n', 'e'] {
        Some(AclEntryKind::Everyone)
    } else if t == seq!['u', 'n', 'k', 'n', 'o', 'w', 'n'] {
        Some(AclEntryKind::Unknown)
    } else {
        None
    }
}

pub open spec fn allow_token(t: Seq<char>) -> Option<bool> {
    if t == seq!['a', 'l', 'l', 'o', 'w'] {
        Some(true)
    } else if t == seq!['d', 'e', 'n', 'y'] {
        Some(false)
    } else {
        None
    }
}

/// The trimmed fields of a line, comment removed.
pub open spec fn fields_of(line: Seq<char>) -> Seq<Seq<char>> {
    trim_all(split(before_hash(line), ':'))
}

/// What a line of text reads as.
pub open spec fn parse_line_spec(line: Seq<char>) -> Result<EntryView, ParseReason> {
    let fs = fields_of(line);
    let n = fs.len();
    if n < 3 || n > 5 {
        Err(ParseReason::FieldCount)
    } else {
        let allow = if n == 5 { allow_token(fs[0]) } else { Some(true) };
        let flags = if n >= 4 { list_bits(Vocab::Flag, fs[n - 4]) } else { Some(0u32) };
        let kind = kind_token(fs[n - 3]);
        let perms = list_bits(Vocab::Perm, fs[n - 1]);
        if allow is None {
            Err(ParseReason::UnknownAllow)
        } else if flags is None {
            Err(ParseReason::UnknownFlag)
        } else if kind is None {
            Err(ParseReason::UnknownKind)
        } else if perms is None {
            Err(ParseReason::UnknownPerm)
        } else {
            Ok(
                EntryView {
                    kind: kind->0,
                    name: fs[n - 2],
                    perms: Perm { bits: perms->0 },
                    flags: Flag { bits: flags->0 },
                    allow: allow->0,
                },
            )
        }
    }
}

/// The names of the bits set among the first `n` of a vocabulary, lowest
/// first.
pub open spec fn names_upto(v: Vocab, bits: u32, n: int) -> Seq<Seq<char>>
    decreases n,
{
    if n <= 0 {
        Seq::empty()
    } else if (bits >> ((n - 1) as u32)) & 1 == 1 {
        names_upto(v, bits, n - 1).push(bit_name(v, n - 1))
    } else {
        names_upto(v, bits, n - 1)
    }
}

pub open spec fn list_text(v: Vocab, bits: u32) -> Seq<char> {
    join(names_upto(v, bits, width(v)))
}

pub open spec fn allow_text(a: bool) -> Seq<char> {
    if a {
        seq!['a', 'l', 'l', 'o', 'w']
    } else {
        seq!['d', 'e', 'n', 'y']
    }
}

pub open spec fn kind_text(k: AclEntryKind) -> Seq<char> {
    match k {
        AclEntryKind::User => seq!['u', 's', 'e', 'r'],
        AclEntryKind::Group => seq!['g', 'r', 'o', 'u', 'p'],
        AclEntryKind::Other => seq!['o', 't', 'h', 'e', 'r'],
        AclEntryKind::Mask => seq!['m', 'a', 's', 'k'],
        AclEntryKind::Everyone => seq!['e', 'v', 'e', 'r', 'y', 'o', 'n', 'e'],
        AclEntryKind::Unknown => seq!['u', 'n', 'k', 'n', 'o', 'w', 'n'],
    }
}

/// The line of an entry: `<allow>:<flags>:<kind>:<name>:<perms>`, flags and
/// permissions by full name in ascending bit order.
pub open spec fn format_line(e: EntryView) -> Seq<char> {
    allow_text(e.allow) + seq![':'] + list_text(Vocab::Flag, e.flags.bits) + seq![':'] + kind_text(
        e.kind,
    ) + seq![':'] + e.name + seq![':'] + list_text(Vocab::Perm, e.perms.bits)
}

/// The text of entries: each line followed by a newline.
pub open spec fn format_text(es: Seq<EntryView>) -> Seq<char>
    decreases es.len(),
{
    if es.len() == 0 {
        Seq::empty()
    } else {
        format_text(es.drop_last()) + format_line(es.last()) + seq!['\n']
    }
}

/// The line holds nothing but white space and comment.
pub open spec fn is_blank(line: Seq<char>) -> bool {
    trim(before_hash(line)).len() == 0
}

/// What the lines read as: the entries of the lines that are not blank, or
/// the first line that is no entry and why.
pub open spec fn parse_lines(ls: Seq<Seq<char>>) -> Result<Seq<EntryView>, (Seq<char>, ParseReason)>
    decreases ls.len(),
{
    if ls.len() == 0 {
        Ok(Seq::empty())
    } else {
        match parse_lines(ls.drop_last()) {
            Err(e) => Err(e),
            Ok(es) => if is_blank(ls.last()) {
                Ok(es)
            } else {
                match parse_line_spec(ls.last()) {
                    Ok(e) => Ok(es.push(e)),
                    Err(r) => Err((ls.last(), r)),
                }
            },
        }
    }
}

/// What a text reads as.
pub open spec fn parse_text(t: Seq<char>) -> Result<Seq<EntryView>, (Seq<char>, ParseReason)> {
    parse_lines(split(t, '\n'))
}

/// The views of a sequence of strings.
pub open spec fn strings(v: Seq<String>) -> Seq<Seq<char>> {
    v.map_values(|x: String| x@)
}

/// The error for a line that is no entry.
pub open spec fn is_parse_error(e: AclError, line: Seq<char>, reason: ParseReason) -> bool {
    e matches AclError::ParseFailure { line: l, reason: r } && l@ == line && r == reason
}

fn parse_error(line: &str, reason: ParseReason) -> (e: AclError)
    ensures
        is_parse_error(e, line@, reason),
{
    AclError::ParseFailure { line: String::from_str(line), reason }
}

fn str_eq(a: &str, b: &str) -> (r: bool)
    ensures
        r == (a@ == b@),
{
    let n = a.unicode_len();
    if n != b.unicode_len() {
        return false;
    }
    let mut i: usize = 0;
    while i < n
        invariant
            n == a@.len(),
            n == b@.len(),
            i <= n,
            forall|j: int| 0 <= j < i ==> a@[j] == b@[j],
        decreases n - i,
    {
        if a.get_char(i) != b.get_char(i) {
            return false;
        }
        i = i + 1;
    }
    assert(a@ =~= b@);
    true
}

fn is_ws_char(c: char) -> (r: bool)
    ensures
        r == is_ws(c),
{
    ('\t' <= c && c <= '\r') || c == ' ' || c == '\u{85}' || c == '\u{a0}' || c == '\u{1680}'
        || ('\u{2000}' <= c && c <= '\u{200a}') || c == '\u{2028}' || c == '\u{2029}' || c
        == '\u{202f}' || c == '\u{205f}' || c == '\u{3000}'
}

/// Removes an end-of-line comment: the text from the first `#` on.
pub fn trim_comment(line: &str) -> (r: &str)
    ensures
        r@ == before_hash(line@),
{
    let n = line.unicode_len();
    let mut i: usize = 0;
    assert(line@.subrange(0, n as int) =~= line@);
    assert(line@.subrange(0, 0) + before_hash(line@) =~= before_hash(line@));
    while i < n && line.get_char(i) != '#'
        invariant
            i <= n,
            n == line@.len(),
            before_hash(line@) == line@.subrange(0, i as int) + before_hash(
                line@.subrange(i as int, n as int),
            ),
        decreases n - i,
    {
        let ghost t = line@.subrange(i as int, n as int);
        assert(t.drop_first() =~= line@.subrange(i + 1, n as int));
        assert(line@.subrange(0, i as int) + seq![t[0]] =~= line@.subrange(0, i + 1));
        i = i + 1;
    }
    assert(before_hash(line@.subrange(i as int, n as int)) =~= Seq::<char>::empty());
    assert(before_hash(line@) =~= line@.subrange(0, i as int));
    line.substring_char(0, i)
}

/// Removes leading and trailing white space.
pub fn trim_str(s: &str) -> (r: &str)
    ensures
        r@ == trim(s@),
{
    let n = s.unicode_len();
    let mut a: usize = 0;
    assert(s@.subrange(0, n as int) =~= s@);
    while a < n && is_ws_char(s.get_char(a))
        invariant
            a <= n,
            n == s@.len(),
            trim_start(s@) == trim_start(s@.subrange(a as int, n as int)),
        decreases n - a,
    {
        assert(s@.subrange(a as int, n as int).drop_first() =~= s@.subrange(a + 1, n as int));
        a = a + 1;
    }
    assert(trim_start(s@) == s@.subrange(a as int, n as int));
    let mut b: usize = n;
    while b > a && is_ws_char(s.get_char(b - 1))
        invariant
            a <= b <= n,
            n == s@.len(),
            trim(s@) == trim_end(s@.subrange(a as int, b as int)),
        decreases b,
    {
        assert(s@.subrange(a as int, b as int).drop_last() =~= s@.subrange(a as int, b - 1));
        b = b - 1;
    }
    s.substring_char(a, b)
}

/// Splits a text at each separator.
fn split_str(s: &str, sep: char) -> (r: Vec<String>)
    ensures
        strings(r@) == split(s@, sep),
{
    let n = s.unicode_len();
    let mut out: Vec<String> = Vec::new();
    let mut start: usize = 0;
    let mut i: usize = 0;
    assert(s@.subrange(0, 0) =~= Seq::<char>::empty());
    assert(strings(out@).push(s@.subrange(0, 0)) =~= seq![s@.subrange(0, 0)]);
    while i < n
        invariant
            n == s@.len(),
            start <= i <= n,
            strings(out@).push(s@.subrange(start as int, i as int)) == split(
                s@.subrange(0, i as int),
                sep,
            ),
        decreases n - i,
    {
        let c = s.get_char(i);
        let ghost p = s@.subrange(0, i + 1);
        assert(p.drop_last() =~= s@.subrange(0, i as int));
        assert(p.last() == c);
        let ghost prev = strings(out@);
        if c == sep {
            let piece = String::from_str(s.substring_char(start, i));
            out.push(piece);
            assert(strings(out@) =~= prev.push(s@.subrange(start as int, i as int)));
            start = i + 1;
            assert(s@.subrange(start as int, i + 1) =~= Seq::<char>::empty());
            assert(strings(out@).push(s@.subrange(start as int, i + 1)) =~= split(p, sep));
        } else {
            assert(s@.subrange(start as int, i as int).push(c) =~= s@.subrange(start as int, i + 1));
            assert(prev.push(s@.subrange(start as int, i + 1)) =~= split(p, sep));
        }
        i = i + 1;
    }
    let ghost prev = strings(out@);
    let last = String::from_str(s.substring_char(start, n));
    out.push(last);
    assert(strings(out@) =~= prev.push(s@.subrange(start as int, n as int)));
    assert(s@.subrange(0, n as int) =~= s@);
    out
}

/// Splits a text at each separator, and trims each piece.
fn trimmed_pieces(s: &str, sep: char) -> (r: Vec<String>)
    ensures
        strings(r@) == trim_all(split(s@, sep)),
{
    let pieces = split_str(s, sep);
    let mut out: Vec<String> = Vec::new();
    let mut i: usize = 0;
    while i < pieces.len()
        invariant
            i <= pieces@.len(),
            strings(pieces@) == split(s@, sep),
            strings(out@) == trim_all(strings(pieces@)).subrange(0, i as int),
        decreases pieces.len() - i,
    {
        let t = String::from_str(trim_str(pieces[i].as_str()));
        let ghost prev = strings(out@);
        out.push(t);
        assert(strings(out@) =~= prev.push(t@));
        assert(strings(out@) =~= trim_all(strings(pieces@)).subrange(0, i + 1));
        i = i + 1;
    }
    assert(strings(out@) =~= trim_all(strings(pieces@)));
    out
}

fn perm_letter_exec(c: char) -> (r: u32)
    ensures
        r == perm_letter(c),
{
    if c == 'r' {
        1
    } else if c == 'w' {
        2
    } else if c == 'x' {
        4
    } else {
        0
    }
}

/// The bits that one token stands for.
fn token_bits_exec(v: Vocab, t: &str) -> (r: Option<u32>)
    ensures
        r == token_bits(v, t@),
{
    let w: u32 = match v {
        Vocab::Perm => 3,
        Vocab::Flag => 8,
    };
    let mut i: u32 = 0;
    while i < w
        invariant
            w == width(v),
            i <= w,
            find_name(v, t@, 0) == find_name(v, t@, i as int),
        decreases w - i,
    {
        if str_eq(t, bit_name_str(v, i)) {
            return Some(1u32 << i);
        }
        i = i + 1;
    }
    match v {
        Vocab::Flag => {
            proof {
                reveal_strlit("d");
                assert("d"@ =~= seq!['d']);
            }
            if str_eq(t, "d") {
                Some(DEFAULT)
            } else {
                None
            }
        },
        Vocab::Perm => {
            let n = t.unicode_len();
            if n == 0 {
                return None;
            }
            let mut acc: u32 = 0;
            let mut k: usize = 0;
            while k < n
                invariant
                    n == t@.len(),
                    k <= n,
                    v == Vocab::Perm,
                    find_name(v, t@, 0) is None,
                    acc == letter_bits(t@.subrange(0, k as int)),
                    forall|j: int| 0 <= j < k ==> perm_letter(#[trigger] t@[j]) != 0,
                decreases n - k,
            {
                let b = perm_letter_exec(t.get_char(k));
                if b == 0 {
                    assert(perm_letter(t@[k as int]) == 0);
                    assert(!all_letters(t@));
                    return None;
                }
                assert(t@.subrange(0, k + 1).drop_last() =~= t@.subrange(0, k as int));
                acc = acc | b;
                k = k + 1;
            }
            assert(t@.subrange(0, n as int) =~= t@);
            Some(acc)
        },
    }
}

/// Reads a comma-separated list of names of a vocabulary.
fn parse_list(v: Vocab, f: &str) -> (r: Option<u32>)
    ensures
        r == list_bits(v, f@),
{
    if f.unicode_len() == 0 {
        return Some(0);
    }
    let ts = trimmed_pieces(f, ',');
    let ghost all = trim_all(split(f@, ','));
    let mut acc: u32 = 0;
    let mut i: usize = 0;
    while i < ts.len()
        invariant
            all == strings(ts@),
            all == trim_all(split(f@, ',')),
            f@.len() > 0,
            i <= ts@.len(),
            all_known(v, all.subrange(0, i as int)),
            acc == or_fold(v, all.subrange(0, i as int)),
        decreases ts.len() - i,
    {
        let b = token_bits_exec(v, ts[i].as_str());
        assert(all[i as int] == ts@[i as int]@);
        match b {
            None => {
                assert(token_bits(v, all[i as int]) is None);
                assert(!all_known(v, all));
                assert(all == trim_all(split(f@, ',')));
                return None;
            },
            Some(bits) => {
                assert(all.subrange(0, i + 1).drop_last() =~= all.subrange(0, i as int));
                assert(all.subrange(0, i + 1).last() == all[i as int]);
                acc = acc | bits;
                assert forall|j: int| 0 <= j < i + 1 implies token_bits(
                    v,
                    #[trigger] all.subrange(0, i + 1)[j],
                ) is Some by {
                    if j < i {
                        assert(all.subrange(0, i + 1)[j] == all.subrange(0, i as int)[j]);
                    }
                }
            },
        }
        i = i + 1;
    }
    assert(all.subrange(0, all.len() as int) =~= all);
    Some(acc)
}

fn kind_token_exec(t: &str) -> (r: Option<AclEntryKind>)
    ensures
        r == kind_token(t@),
{
    proof {
        reveal_strlit("user");
        reveal_strlit("u");
        reveal_strlit("group");
        reveal_strlit("g");
        reveal_strlit("other");
        reveal_strlit("o");
        reveal_strlit("mask");
        reveal_strlit("m");
        reveal_strlit("unknown");
        reveal_strlit("everyone");
        assert("everyone"@ =~= seq!['e', 'v', 'e', 'r', 'y', 'o', 'n', 'e']);
        assert("user"@ =~= seq!['u', 's', 'e', 'r']);
        assert("u"@ =~= seq!['u']);
        assert("group"@ =~= seq!['g', 'r', 'o', 'u', 'p']);
        assert("g"@ =~= seq!['g']);
        assert("other"@ =~= seq!['o', 't', 'h', 'e', 'r']);
        assert("o"@ =~= seq!['o']);
        assert("mask"@ =~= seq!['m', 'a', 's', 'k']);
        assert("m"@ =~= seq!['m']);
        assert("unknown"@ =~= seq!['u', 'n', 'k', 'n', 'o', 'w', 'n']);
    }
    if str_eq(t, "user") || str_eq(t, "u") {
        Some(AclEntryKind::User)
    } else if str_eq(t, "group") || str_eq(t, "g") {
        Some(AclEntryKind::Group)
    } else if str_eq(t, "other") || str_eq(t, "o") {
        Some(AclEntryKind::Other)
    } else if str_eq(t, "mask") || str_eq(t, "m") {
        Some(AclEntryKind::Mask)
    } else if str_eq(t, "everyone") {
        Some(AclEntryKind::Everyone)
    } else if str_eq(t, "unknown") {
        Some(AclEntryKind::Unknown)
    } else {
        None
    }
}

fn allow_token_exec(t: &str) -> (r: Option<bool>)
    ensures
        r == allow_token(t@),
{
    proof {
        reveal_strlit("allow");
        reveal_strlit("deny");
        assert("allow"@ =~= seq!['a', 'l', 'l', 'o', 'w']);
        assert("deny"@ =~= seq!['d', 'e', 'n', 'y']);
    }
    if str_eq(t, "allow") {
        Some(true)
    } else if str_eq(t, "deny") {
        Some(false)
    } else {
        None
    }
}

/// Reads one line of text as an entry.
pub fn parse_line(line: &str) -> (r: Result<AclEntry, AclError>)
    ensures
        match r {
            Ok(e) => parse_line_spec(line@) == Ok::<EntryView, ParseReason>(e@),
            Err(err) => parse_line_spec(line@) matches Err(reason) && is_parse_error(
                err,
                line@,
                reason,
            ),
        },
{
    let fs = trimmed_pieces(trim_comment(line), ':');
    let n = fs.len();
    if n < 3 || n > 5 {
        return Err(parse_error(line, ParseReason::FieldCount));
    }
    let allow = if n == 5 {
        allow_token_exec(fs[0].as_str())
    } else {
        Some(true)
    };
    let flags = if n >= 4 {
        parse_list(Vocab::Flag, fs[n - 4].as_str())
    } else {
        Some(0)
    };
    let kind = kind_token_exec(fs[n - 3].as_str());
    let perms = parse_list(Vocab::Perm, fs[n - 1].as_str());
    proof {
        assert(fields_of(line@)[n - 1] == fs@[n - 1]@);
        assert(fields_of(line@)[n - 2] == fs@[n - 2]@);
        assert(fields_of(line@)[n - 3] == fs@[n - 3]@);
        if n >= 4 {
            assert(fields_of(line@)[n - 4] == fs@[n - 4]@);
        }
        assert(fields_of(line@)[0] == fs@[0]@);
    }
    match (allow, flags, kind, perms) {
        (None, _, _, _) => Err(parse_error(line, ParseReason::UnknownAllow)),
        (_, None, _, _) => Err(parse_error(line, ParseReason::UnknownFlag)),
        (_, _, None, _) => Err(parse_error(line, ParseReason::UnknownKind)),
        (_, _, _, None) => Err(parse_error(line, ParseReason::UnknownPerm)),
        (Some(allow), Some(flags), Some(kind), Some(perms)) => Ok(
            AclEntry {
                kind,
                name: fs[n - 2].clone(),
                perms: Perm { bits: perms },
                flags: Flag { bits: flags },
                allow,
            },
        ),
    }
}

/// Writes the names of the set bits, comma-separated, lowest bit first.
fn list_string(v: Vocab, bits: u32) -> (r: String)
    ensures
        r@ == list_text(v, bits),
{
    proof {
        reveal_strlit(",");
        assert(","@ =~= seq![',']);
    }
    let w: u32 = match v {
        Vocab::Perm => 3,
        Vocab::Flag => 8,
    };
    let mut out = String::new();
    let mut count: usize = 0;
    let mut i: u32 = 0;
    while i < w
        invariant
            w == width(v),
            i <= w,
            out@ == join(names_upto(v, bits, i as int)),
            count == names_upto(v, bits, i as int).len(),
            count <= i,
            ","@ == seq![','],
        decreases w - i,
    {
        let ghost ns = names_upto(v, bits, i as int);
        if (bits >> i) & 1 == 1 {
            assert(names_upto(v, bits, i + 1) == ns.push(bit_name(v, i as int)));
            assert(ns.push(bit_name(v, i as int)).drop_last() =~= ns);
            if count > 0 {
                out.append(",");
            }
            out.append(bit_name_str(v, i));
            count = count + 1;
            proof {
                if ns.len() == 0 {
                    assert(out@ =~= join(ns.push(bit_name(v, i as int))));
                }
            }
        }
        i = i + 1;
    }
    out
}

fn allow_str(a: bool) -> (r: &'static str)
    ensures
        r@ == allow_text(a),
{
    if a {
        proof {
            reveal_strlit("allow");
        }
        "allow"
    } else {
        proof {
            reveal_strlit("deny");
        }
        "deny"
    }
}

fn kind_str(k: AclEntryKind) -> (r: &'static str)
    ensures
        r@ == kind_text(k),
{
    match k {
        AclEntryKind::User => {
            proof {
                reveal_strlit("user");
            }
            "user"
        },
        AclEntryKind::Group => {
            proof {
                reveal_strlit("group");
            }
            "group"
        },
        AclEntryKind::Other => {
            proof {
                reveal_strlit("other");
            }
            "other"
        },
        AclEntryKind::Mask => {
            proof {
                reveal_strlit("mask");
            }
            "mask"
        },
        AclEntryKind::Everyone => {
            proof {
                reveal_strlit("everyone");
            }
            "everyone"
        },
        AclEntryKind::Unknown => {
            proof {
                reveal_strlit("unknown");
            }
            "unknown"
        },
    }
}

/// Writes one entry as a line, without the newline.
pub fn format_entry(e: &AclEntry) -> (r: String)
    ensures
        r@ == format_line(e@),
{
    proof {
        reveal_strlit(":");
        assert(":"@ =~= seq![':']);
    }
    let mut out = String::from_str(allow_str(e.allow));
    out.append(":");
    let flags = list_string(Vocab::Flag, e.flags.bits);
    out.append(flags.as_str());
    out.append(":");
    out.append(kind_str(e.kind));
    out.append(":");
    out.append(e.name.as_str());
    out.append(":");
    let perms = list_string(Vocab::Perm, e.perms.bits);
    out.append(perms.as_str());
    out
}

/// Writes entries as text, one line each.
pub fn to_text(entries: &Vec<AclEntry>) -> (r: String)
    ensures
        r@ == format_text(views(entries@)),
{
    proof {
        reveal_strlit("\n");
        assert("\n"@ =~= seq!['\n']);
    }
    let mut out = String::new();
    let mut i: usize = 0;
    assert(views(entries@.subrange(0, 0)) =~= Seq::<EntryView>::empty());
    while i < entries.len()
        invariant
            i <= entries@.len(),
            out@ == format_text(views(entries@.subrange(0, i as int))),
            "\n"@ == seq!['\n'],
        decreases entries.len() - i,
    {
        let line = format_entry(&entries[i]);
        out.append(line.as_str());
        out.append("\n");
        let ghost es = views(entries@.subrange(0, i + 1));
        assert(es.drop_last() =~= views(entries@.subrange(0, i as int)));
        assert(es.last() == entries@[i as int]@);
        i = i + 1;
    }
    assert(entries@.subrange(0, entries@.len() as int) =~= entries@);
    out
}

/// Reads text: one entry per line that is not blank or comment only.
/// Fails on the first line that is no entry, with that line and why.
pub fn from_text(text: &str) -> (r: Result<Vec<AclEntry>, AclError>)
    ensures
        match r {
            Ok(v) => parse_text(text@) == Ok::<Seq<EntryView>, (Seq<char>, ParseReason)>(
                views(v@),
            ),
            Err(err) => parse_text(text@) matches Err((l, reason)) && is_parse_error(
                err,
                l,
                reason,
            ),
        },
{
    let lines = split_str(text, '\n');
    let ghost ls = split(text@, '\n');
    let mut out: Vec<AclEntry> = Vec::new();
    let mut i: usize = 0;
    assert(views(out@) =~= Seq::<EntryView>::empty());
    assert(ls.subrange(0, 0) =~= Seq::<Seq<char>>::empty());
    while i < lines.len()
        invariant
            strings(lines@) == ls,
            ls == split(text@, '\n'),
            i <= lines@.len(),
            parse_lines(ls.subrange(0, i as int)) == Ok::<
                Seq<EntryView>,
                (Seq<char>, ParseReason),
            >(views(out@)),
        decreases lines.len() - i,
    {
        let line = lines[i].as_str();
        let ghost pre = ls.subrange(0, i + 1);
        assert(pre.drop_last() =~= ls.subrange(0, i as int));
        assert(pre.last() == line@);
        let body = trim_str(trim_comment(line));
        if body.unicode_len() != 0 {
            match parse_line(line) {
                Ok(e) => {
                    let ghost prev = views(out@);
                    out.push(e);
                    assert(views(out@) =~= prev.push(e@));
                },
                Err(err) => {
                    proof {
                        lemma_parse_lines_err_stays(ls, i as int + 1);
                    }
                    return Err(err);
                },
            }
        }
        i = i + 1;
    }
    assert(ls.subrange(0, ls.len() as int) =~= ls);
    Ok(out)
}

/// Once a prefix of the lines fails, the whole fails the same way.
proof fn lemma_parse_lines_err_stays(ls: Seq<Seq<char>>, k: int)
    requires
        0 <= k <= ls.len(),
        parse_lines(ls.subrange(0, k)) is Err,
    ensures
        parse_lines(ls) == parse_lines(ls.subrange(0, k)),
    decreases ls.len() - k,
{
    if k < ls.len() {
        assert(ls.subrange(0, k + 1).drop_last() =~= ls.subrange(0, k));
        lemma_parse_lines_err_stays(ls, k + 1);
    } else {
        assert(ls.subrange(0, k) =~= ls);
    }
}

/// Every character of `s` satisfies `p`.
pub open spec fn chars_all(s: Seq<char>, p: spec_fn(char) -> bool) -> bool {
    forall|i: int| 0 <= i < s.len() ==> p(#[trigger] s[i])
}

/// A character that may stand in a name of the text form.
pub open spec fn name_char(c: char) -> bool {
    !is_ws(c) && c != ':' && c != '#' && c != '\n'
}

/// A character that may stand in a field of a line.
pub open spec fn text_char(c: char) -> bool {
    c != ':' && c != '#' && c != '\n'
}

/// An entry that its line gives back: a name without `:`, `#` or newline,
/// and without leading or trailing white space; only recognised bits.
pub open spec fn writable(e: EntryView) -> bool {
    &&& chars_all(e.name, |c: char| text_char(c))
    &&& trim(e.name) == e.name
    &&& e.perms.wf()
    &&& e.flags.wf()
}

proof fn lemma_chars_concat(a: Seq<char>, b: Seq<char>, p: spec_fn(char) -> bool)
    requires
        chars_all(a, p),
        chars_all(b, p),
    ensures
        chars_all(a + b, p),
{
    assert forall|i: int| 0 <= i < (a + b).len() implies p(#[trigger] (a + b)[i]) by {
        if i < a.len() {
            assert((a + b)[i] == a[i]);
        } else {
            assert((a + b)[i] == b[i - a.len()]);
        }
    }
}

proof fn lemma_split_len(s: Seq<char>, c: char)
    ensures
        split(s, c).len() >= 1,
    decreases s.len(),
{
    if s.len() > 0 {
        lemma_split_len(s.drop_last(), c);
    }
}

proof fn lemma_split_none(s: Seq<char>, c: char)
    requires
        chars_all(s, |x: char| x != c),
    ensures
        split(s, c) == seq![s],
    decreases s.len(),
{
    if s.len() > 0 {
        let t = s.drop_last();
        assert(chars_all(t, |x: char| x != c)) by {
            assert forall|i: int| 0 <= i < t.len() implies #[trigger] t[i] != c by {
                assert(t[i] == s[i]);
            }
        }
        lemma_split_none(t, c);
        assert(s.last() == s[s.len() - 1]);
        assert(t.push(s.last()) =~= s);
        assert(split(s, c) =~= seq![s]);
    } else {
        assert(s =~= Seq::<char>::empty());
    }
}

proof fn lemma_split_concat(x: Seq<char>, y: Seq<char>, c: char)
    ensures
        split(x + seq![c] + y, c) == split(x, c) + split(y, c),
    decreases y.len(),
{
    let xc = x + seq![c];
    if y.len() == 0 {
        assert(xc + y =~= xc);
        assert(xc.drop_last() =~= x);
        assert(split(xc, c) =~= split(x, c) + split(y, c));
    } else {
        let y0 = y.drop_last();
        lemma_split_concat(x, y0, c);
        lemma_split_len(y0, c);
        assert((xc + y).drop_last() =~= xc + y0);
        assert((xc + y).last() == y.last());
        assert(split(xc + y, c) =~= split(x, c) + split(y, c));
    }
}

proof fn lemma_before_hash_none(s: Seq<char>)
    requires
        chars_all(s, |x: char| x != '#'),
    ensures
        before_hash(s) == s,
    decreases s.len(),
{
    if s.len() > 0 {
        let t = s.drop_first();
        assert(chars_all(t, |x: char| x != '#')) by {
            assert forall|i: int| 0 <= i < t.len() implies #[trigger] t[i] != '#' by {
                assert(t[i] == s[i + 1]);
            }
        }
        lemma_before_hash_none(t);
        assert(s[0] != '#');
        assert(seq![s[0]] + t =~= s);
    }
}

proof fn lemma_trim_none(s: Seq<char>)
    requires
        chars_all(s, |x: char| !is_ws(x)),
    ensures
        trim(s) == s,
{
    if s.len() > 0 {
        assert(!is_ws(s[0]));
        assert(!is_ws(s[s.len() - 1]));
    }
}

proof fn lemma_names_distinct(v: Vocab, i: int, j: int)
    requires
        0 <= i < width(v),
        0 <= j < width(v),
        i != j,
    ensures
        bit_name(v, i) != bit_name(v, j),
{
    let a = bit_name(v, i);
    let b = bit_name(v, j);
    assert(a.len() != b.len() || a[0] != b[0]);
}

proof fn lemma_find_name(v: Vocab, i: int, j: int)
    requires
        0 <= j <= i < width(v),
    ensures
        find_name(v, bit_name(v, i), j) == Some(i),
    decreases i - j,
{
    if j < i {
        lemma_names_distinct(v, i, j);
        lemma_find_name(v, i, j + 1);
    }
}

/// A name of a vocabulary: no white space, `:`, `#`, newline or comma, and
/// not empty.
proof fn lemma_name_chars(v: Vocab, i: int)
    requires
        0 <= i < width(v),
    ensures
        chars_all(bit_name(v, i), |c: char| name_char(c) && c != ','),
        bit_name(v, i).len() > 0,
{
    let s = bit_name(v, i);
    assert forall|k: int| 0 <= k < s.len() implies name_char(#[trigger] s[k]) && s[k] != ',' by {
        assert('a' <= s[k] && s[k] <= 'z' || s[k] == '_');
    }
}

proof fn lemma_join_chars(ns: Seq<Seq<char>>, p: spec_fn(char) -> bool)
    requires
        forall|i: int| 0 <= i < ns.len() ==> chars_all(#[trigger] ns[i], p),
        p(','),
    ensures
        chars_all(join(ns), p),
    decreases ns.len(),
{
    if ns.len() == 1 {
        assert(chars_all(ns[0], p));
    } else if ns.len() > 1 {
        let t = ns.drop_last();
        assert forall|i: int| 0 <= i < t.len() implies chars_all(#[trigger] t[i], p) by {
            assert(t[i] == ns[i]);
        }
        lemma_join_chars(t, p);
        assert(chars_all(seq![','], p));
        lemma_chars_concat(join(t), seq![','], p);
        assert(chars_all(ns.last(), p));
        lemma_chars_concat(join(t) + seq![','], ns.last(), p);
    } else {
        assert(join(ns) =~= Seq::<char>::empty());
    }
}

proof fn lemma_split_join(ns: Seq<Seq<char>>)
    requires
        ns.len() > 0,
        forall|i: int| 0 <= i < ns.len() ==> chars_all(#[trigger] ns[i], |c: char| c != ','),
    ensures
        split(join(ns), ',') == ns,
    decreases ns.len(),
{
    if ns.len() == 1 {
        lemma_split_none(ns[0], ',');
        assert(seq![ns[0]] =~= ns);
    } else {
        let t = ns.drop_last();
        assert forall|i: int| 0 <= i < t.len() implies chars_all(#[trigger] t[i], |c: char| c != ',') by {
            assert(t[i] == ns[i]);
        }
        lemma_split_join(t);
        lemma_split_concat(join(t), ns.last(), ',');
        assert(chars_all(ns[ns.len() - 1], |c: char| c != ','));
        lemma_split_none(ns.last(), ',');
        assert(t + seq![ns.last()] =~= ns);
    }
}

pub open spec fn low_mask(n: u32) -> u32 {
    !(0xffff_ffffu32 << n)
}

proof fn lemma_mask_step(bits: u32, k: u32)
    requires
        k < 31,
    ensures
        (bits >> k) & 1 == 1 ==> (bits & low_mask(k)) | (1u32 << k) == bits & low_mask(
            (k + 1) as u32,
        ),
        (bits >> k) & 1 != 1 ==> bits & low_mask(k) == bits & low_mask((k + 1) as u32),
{
    let k1 = (k + 1) as u32;
    assert(k1 == k + 1);
    assert((bits >> k) & 1 == 1 ==> (bits & !(0xffff_ffffu32 << k)) | (1u32 << k) == bits & !(
    0xffff_ffffu32 << k1)) by (bit_vector)
        requires
            k < 31,
            k1 == k + 1,
    ;
    assert((bits >> k) & 1 != 1 ==> bits & !(0xffff_ffffu32 << k) == bits & !(0xffff_ffffu32
        << k1)) by (bit_vector)
        requires
            k < 31,
            k1 == k + 1,
    ;
}

/// The names of the set bits read back as those bits.
proof fn lemma_names_bits(v: Vocab, bits: u32, n: int)
    requires
        0 <= n <= width(v),
    ensures
        all_known(v, names_upto(v, bits, n)),
        or_fold(v, names_upto(v, bits, n)) == bits & low_mask(n as u32),
        forall|i: int|
            0 <= i < names_upto(v, bits, n).len() ==> chars_all(
                #[trigger] names_upto(v, bits, n)[i],
                |c: char| name_char(c) && c != ',',
            ),
        forall|i: int| 0 <= i < names_upto(v, bits, n).len() ==> (#[trigger] names_upto(v, bits, n)[i]).len() > 0,
    decreases n,
{
    let ns = names_upto(v, bits, n);
    if n == 0 {
        assert(bits & low_mask(0) == 0) by (bit_vector);
    } else {
        let prev = names_upto(v, bits, n - 1);
        lemma_names_bits(v, bits, n - 1);
        lemma_mask_step(bits, (n - 1) as u32);
        if (bits >> ((n - 1) as u32)) & 1 == 1 {
            let nm = bit_name(v, n - 1);
            lemma_find_name(v, n - 1, 0);
            lemma_name_chars(v, n - 1);
            assert(ns == prev.push(nm));
            assert(ns.drop_last() =~= prev);
            assert forall|i: int| 0 <= i < ns.len() implies token_bits(v, #[trigger] ns[i]) is Some by {
                if i < prev.len() {
                    assert(ns[i] == prev[i]);
                }
            }
            assert forall|i: int| 0 <= i < ns.len() implies chars_all(
                #[trigger] ns[i],
                |c: char| name_char(c) && c != ',',
            ) && ns[i].len() > 0 by {
                if i < prev.len() {
                    assert(ns[i] == prev[i]);
                }
            }
        }
    }
}

proof fn lemma_list_round_trip(v: Vocab, bits: u32)
    requires
        v == Vocab::Perm ==> bits & !7u32 == 0,
        v == Vocab::Flag ==> bits & !255u32 == 0,
    ensures
        list_bits(v, list_text(v, bits)) == Some(bits),
        chars_all(list_text(v, bits), |c: char| name_char(c)),
{
    let ns = names_upto(v, bits, width(v));
    lemma_names_bits(v, bits, width(v));
    assert(bits & low_mask(width(v) as u32) == bits) by {
        if v == Vocab::Perm {
            assert(bits & !7u32 == 0 ==> bits & !(0xffff_ffffu32 << 3u32) == bits) by (bit_vector);
        } else {
            assert(bits & !255u32 == 0 ==> bits & !(0xffff_ffffu32 << 8u32) == bits) by (bit_vector);
        }
    }
    assert forall|i: int| 0 <= i < ns.len() implies chars_all(#[trigger] ns[i], |c: char| name_char(c)) by {
        assert(chars_all(ns[i], |c: char| name_char(c) && c != ','));
        assert forall|k: int| 0 <= k < ns[i].len() implies name_char(#[trigger] ns[i][k]) by {
            assert((|c: char| name_char(c) && c != ',')(ns[i][k]));
        }
    }
    lemma_join_chars(ns, |c: char| name_char(c));
    let f = join(ns);
    if ns.len() == 0 {
        assert(f.len() == 0);
    } else {
        assert forall|i: int| 0 <= i < ns.len() implies chars_all(#[trigger] ns[i], |c: char| c != ',') by {
            assert(chars_all(ns[i], |c: char| name_char(c) && c != ','));
        }
        lemma_split_join(ns);
        assert forall|i: int| 0 <= i < ns.len() implies trim(#[trigger] ns[i]) == ns[i] by {
            assert(chars_all(ns[i], |c: char| name_char(c) && c != ','));
            assert(chars_all(ns[i], |c: char| !is_ws(c))) by {
                assert forall|k: int| 0 <= k < ns[i].len() implies !is_ws(#[trigger] ns[i][k]) by {
                    assert((|c: char| name_char(c) && c != ',')(ns[i][k]));
                }
            }
            lemma_trim_none(ns[i]);
        }
        assert(trim_all(split(f, ',')) =~= ns);
        assert(f.len() > 0) by {
            if ns.len() == 1 {
                assert(ns[0].len() > 0);
                assert(f == ns[0]);
            } else {
                assert(f == join(ns.drop_last()) + seq![','] + ns.last());
            }
        }
    }
}

proof fn lemma_chars_weaken(s: Seq<char>, p: spec_fn(char) -> bool, q: spec_fn(char) -> bool)
    requires
        chars_all(s, p),
        forall|c: char| #[trigger] p(c) ==> q(c),
    ensures
        chars_all(s, q),
{
    assert forall|i: int| 0 <= i < s.len() implies q(#[trigger] s[i]) by {
        assert(p(s[i]));
    }
}

/// A character that may stand in a line of the text form.
pub open spec fn line_char(c: char) -> bool {
    c != '#' && c != '\n'
}

/// A text that starts with other than white space does not trim to nothing.
proof fn lemma_trim_first(s: Seq<char>)
    requires
        s.len() > 0,
        !is_ws(s[0]),
    ensures
        trim(s).len() > 0,
{
    lemma_trim_end_first(s);
}

proof fn lemma_trim_end_first(s: Seq<char>)
    requires
        s.len() > 0,
        !is_ws(s[0]),
    ensures
        trim_end(s).len() > 0,
    decreases s.len(),
{
    if is_ws(s.last()) {
        assert(s.len() > 1);
        assert(s.drop_last()[0] == s[0]);
        lemma_trim_end_first(s.drop_last());
    }
}

proof fn lemma_word_chars(s: Seq<char>)
    requires
        forall|i: int| 0 <= i < s.len() ==> 'a' <= #[trigger] s[i] && s[i] <= 'z',
    ensures
        chars_all(s, |c: char| name_char(c)),
{
    assert forall|i: int| 0 <= i < s.len() implies name_char(#[trigger] s[i]) by {
        assert('a' <= s[i] && s[i] <= 'z');
    }
}

/// A trimmed piece without the separator is its own single field.
proof fn lemma_field(s: Seq<char>)
    requires
        chars_all(s, |c: char| text_char(c)),
        trim(s) == s,
    ensures
        split(s, ':') == seq![s],
{
    lemma_chars_weaken(s, |c: char| text_char(c), |c: char| c != ':');
    lemma_split_none(s, ':');
}

/// A piece without white space, `:`, `#` or newline is a trimmed field.
proof fn lemma_word_field(s: Seq<char>)
    requires
        chars_all(s, |c: char| name_char(c)),
    ensures
        chars_all(s, |c: char| text_char(c)),
        trim(s) == s,
        split(s, ':') == seq![s],
{
    lemma_chars_weaken(s, |c: char| name_char(c), |c: char| text_char(c));
    lemma_chars_weaken(s, |c: char| name_char(c), |c: char| !is_ws(c));
    lemma_trim_none(s);
    lemma_field(s);
}

/// The line of a writable entry reads back as that entry.
pub proof fn lemma_line_round_trip(e: EntryView)
    requires
        writable(e),
    ensures
        parse_line_spec(format_line(e)) == Ok::<EntryView, ParseReason>(e),
        chars_all(format_line(e), |c: char| line_char(c)),
        format_line(e).len() > 0,
        !is_ws(format_line(e)[0]),
{
    let a = allow_text(e.allow);
    let b = list_text(Vocab::Flag, e.flags.bits);
    let c = kind_text(e.kind);
    let d = e.name;
    let f = list_text(Vocab::Perm, e.perms.bits);
    let colon = seq![':'];
    lemma_list_round_trip(Vocab::Flag, e.flags.bits);
    lemma_list_round_trip(Vocab::Perm, e.perms.bits);
    lemma_word_chars(a);
    lemma_word_chars(c);
    lemma_word_field(a);
    lemma_word_field(b);
    lemma_word_field(c);
    lemma_field(d);
    lemma_word_field(f);
    let x2 = a + colon + b;
    let x3 = x2 + colon + c;
    let x4 = x3 + colon + d;
    let line = x4 + colon + f;
    assert(line == format_line(e));
    lemma_split_concat(a, b, ':');
    lemma_split_concat(x2, c, ':');
    lemma_split_concat(x3, d, ':');
    lemma_split_concat(x4, f, ':');
    assert(split(line, ':') =~= seq![a, b, c, d, f]);
    // every character of the line may stand in a line
    let lc = |ch: char| line_char(ch);
    let tc = |ch: char| text_char(ch);
    lemma_chars_weaken(a, tc, lc);
    lemma_chars_weaken(b, tc, lc);
    lemma_chars_weaken(c, tc, lc);
    lemma_chars_weaken(d, tc, lc);
    lemma_chars_weaken(f, tc, lc);
    assert(chars_all(colon, lc));
    lemma_chars_concat(a, colon, lc);
    lemma_chars_concat(a + colon, b, lc);
    lemma_chars_concat(x2, colon, lc);
    lemma_chars_concat(x2 + colon, c, lc);
    lemma_chars_concat(x3, colon, lc);
    lemma_chars_concat(x3 + colon, d, lc);
    lemma_chars_concat(x4, colon, lc);
    lemma_chars_concat(x4 + colon, f, lc);
    lemma_chars_weaken(line, lc, |ch: char| ch != '#');
    lemma_before_hash_none(line);
    let fs = fields_of(line);
    assert(fs =~= seq![a, b, c, d, f]);
    assert(allow_token(a) == Some(e.allow)) by {
        if !e.allow {
            assert(a.len() == 4);
        }
    }
    assert(kind_token(c) == Some(e.kind)) by {
        assert(c[0] == c[0]);
    }
    assert(line.len() > 0 && line[0] == a[0]) by {
        assert(line.len() >= a.len());
    }
}

/// The lines of entries.
pub open spec fn lines_of(es: Seq<EntryView>) -> Seq<Seq<char>> {
    es.map_values(|e: EntryView| format_line(e))
}

proof fn lemma_split_text(es: Seq<EntryView>)
    requires
        forall|i: int| 0 <= i < es.len() ==> writable(#[trigger] es[i]),
    ensures
        split(format_text(es), '\n') == lines_of(es).push(Seq::<char>::empty()),
    decreases es.len(),
{
    if es.len() > 0 {
        let t = es.drop_last();
        assert forall|i: int| 0 <= i < t.len() implies writable(#[trigger] t[i]) by {
            assert(t[i] == es[i]);
        }
        lemma_split_text(t);
        let y = format_line(es.last());
        lemma_line_round_trip(es.last());
        lemma_chars_weaken(y, |c: char| line_char(c), |c: char| c != '\n');
        lemma_split_none(y, '\n');
        let tt = format_text(t);
        assert((tt + y + seq!['\n']).drop_last() =~= tt + y);
        if t.len() == 0 {
            assert(tt + y =~= y);
        } else {
            let t0 = format_text(t.drop_last()) + format_line(t.last());
            assert(tt == t0 + seq!['\n']);
            assert(tt.drop_last() =~= t0);
            lemma_split_concat(t0, y, '\n');
            assert(split(tt, '\n') == split(t0, '\n').push(Seq::<char>::empty()));
            assert(split(t0, '\n') =~= split(t0, '\n').push(Seq::<char>::empty()).drop_last());
            assert(lines_of(t) =~= lines_of(t).push(Seq::<char>::empty()).drop_last());
            assert(split(t0, '\n') == lines_of(t));
        }
        assert(lines_of(t).push(y) =~= lines_of(es));
    } else {
        assert(format_text(es) =~= Seq::<char>::empty());
    }
}

proof fn lemma_parse_lines_of(es: Seq<EntryView>)
    requires
        forall|i: int| 0 <= i < es.len() ==> writable(#[trigger] es[i]),
    ensures
        parse_lines(lines_of(es)) == Ok::<Seq<EntryView>, (Seq<char>, ParseReason)>(es),
    decreases es.len(),
{
    if es.len() > 0 {
        let t = es.drop_last();
        assert forall|i: int| 0 <= i < t.len() implies writable(#[trigger] t[i]) by {
            assert(t[i] == es[i]);
        }
        lemma_parse_lines_of(t);
        assert(lines_of(es).drop_last() =~= lines_of(t));
        let y = format_line(es.last());
        lemma_line_round_trip(es.last());
        lemma_chars_weaken(y, |c: char| line_char(c), |c: char| c != '#');
        lemma_before_hash_none(y);
        lemma_trim_first(y);
        assert(!is_blank(y));
        let ls = lines_of(es);
        assert(ls.last() == y);
        assert(ls.len() > 0);
        assert(parse_lines(ls.drop_last()) == Ok::<Seq<EntryView>, (Seq<char>, ParseReason)>(t));
        assert(parse_line_spec(ls.last()) == Ok::<EntryView, ParseReason>(es.last()));
        assert(!is_blank(ls.last()));
        assert(t.push(es.last()) =~= es);
        assert(parse_lines(ls) == Ok::<Seq<EntryView>, (Seq<char>, ParseReason)>(t.push(es.last())));
    } else {
        assert(lines_of(es) =~= Seq::<Seq<char>>::empty());
        assert(es =~= Seq::<EntryView>::empty());
    }
}

/// Reading back the text of writable entries gives the same entries, in the
/// same order.
pub proof fn lemma_text_round_trip(es: Seq<EntryView>)
    requires
        forall|i: int| 0 <= i < es.len() ==> writable(#[trigger] es[i]),
    ensures
        parse_text(format_text(es)) == Ok::<Seq<EntryView>, (Seq<char>, ParseReason)>(es),
{
    lemma_split_text(es);
    lemma_parse_lines_of(es);
    let ls = lines_of(es).push(Seq::<char>::empty());
    assert(ls.drop_last() =~= lines_of(es));
    assert(is_blank(Seq::<char>::empty()));
}

} // verus!
