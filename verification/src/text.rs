use vstd::prelude::*;
use vstd::utf8::*;
use vstd::string::StringSliceAdditionalSpecFns;

verus! {

/// Collects the characters of a string slice into a vector.
pub fn str_chars(s: &str) -> (v: Vec<char>)
    ensures
        v@ == s@,
{
    let mut v: Vec<char> = Vec::new();
    for c in it: s.chars()
        invariant
            v.len() == it.index(),
            forall|j: int| 0 <= j < v.len() ==> v@[j] == it.seq()[j],
            it.seq() == s@,
    {
        v.push(c);
    }
    v
}

/// Whether two strings hold the same characters.
pub fn str_eq(a: &str, b: &str) -> (r: bool)
    ensures
        r == (a@ == b@),
{
    let x = str_chars(a);
    let y = str_chars(b);
    if x.len() != y.len() {
        return false;
    }
    let mut i: usize = 0;
    while i < x.len()
        invariant
            x@ == a@,
            y@ == b@,
            x.len() == y.len(),
            0 <= i <= x.len(),
            forall|k: int| 0 <= k < i ==> x@[k] == y@[k],
        decreases x.len() - i,
    {
        if x[i] != y[i] {
            return false;
        }
        i += 1;
    }
    assert(x@ =~= y@);
    true
}

/// A byte position that a `str` accepts as a character boundary: the start,
/// the end, or a byte that does not continue a multi-byte character.
pub open spec fn boundary(line: Seq<u8>, i: int) -> bool {
    ||| i == 0
    ||| i == line.len()
    ||| (0 < i < line.len() && !is_continuation_byte(line[i]))
}

/// Exec form of [`boundary`].
pub fn is_boundary(line: &Vec<u8>, i: usize) -> (r: bool)
    ensures
        r == boundary(line@, i as int),
{
    if i == 0 || i == line.len() {
        true
    } else if i < line.len() {
        let b = line[i];
        !(0x80 <= b && b <= 0xbf)
    } else {
        false
    }
}

/// Splitting valid UTF-8 at a boundary gives two valid halves.
pub proof fn lemma_split_utf8(line: Seq<u8>, i: int)
    requires
        valid_utf8(line),
        boundary(line, i),
    ensures
        valid_utf8(line.subrange(0, i)),
        valid_utf8(line.subrange(i, line.len() as int)),
{
    is_char_boundary_start_end_of_seq(line);
    if 0 < i < line.len() {
        is_char_boundary_iff_not_is_continuation_byte(line, i);
    }
    valid_utf8_split(line, i);
}

/// Concatenation keeps UTF-8 validity.
pub proof fn lemma_concat_utf8(a: Seq<u8>, b: Seq<u8>)
    requires
        valid_utf8(a),
        valid_utf8(b),
    ensures
        valid_utf8(a + b),
{
    valid_utf8_concat(a, b);
}

/// `u8::is_ascii_whitespace`: space, tab, line feed, form feed, carriage return.
pub open spec fn ascii_ws(b: u8) -> bool {
    b == 32 || b == 9 || b == 10 || b == 12 || b == 13
}

/// A byte of an identifier-like word: ASCII letter, digit or underscore.
pub open spec fn word_byte(b: u8) -> bool {
    (48 <= b <= 57) || (65 <= b <= 90) || (97 <= b <= 122) || b == 95
}

pub fn is_ascii_ws(b: u8) -> (r: bool)
    ensures
        r == ascii_ws(b),
{
    b == 32 || b == 9 || b == 10 || b == 12 || b == 13
}

pub fn is_word_byte(b: u8) -> (r: bool)
    ensures
        r == word_byte(b),
{
    (48 <= b && b <= 57) || (65 <= b && b <= 90) || (97 <= b && b <= 122) || b == 95
}

/// Byte value of a line feed.
pub const NL: u8 = 10u8;

/// No byte of `s` is a line feed.
pub open spec fn no_nl(s: Seq<u8>) -> bool {
    forall|i: int| 0 <= i < s.len() ==> s[i] != NL
}

/// `s` split at every line feed (the pieces of `str::split('\n')`): one more
/// piece than there are line feeds.
pub open spec fn split_nl(s: Seq<u8>) -> Seq<Seq<u8>>
    decreases s.len(),
{
    if s.len() == 0 {
        seq![Seq::<u8>::empty()]
    } else {
        let prev = split_nl(s.drop_last());
        if s.last() == NL {
            prev.push(Seq::<u8>::empty())
        } else {
            prev.update(prev.len() - 1, prev.last().push(s.last()))
        }
    }
}

/// `char::is_whitespace`: the Unicode `White_Space` property.
pub open spec fn unicode_ws(c: char) -> bool {
    let u = c as u32;
    ||| 9 <= u <= 13
    ||| u == 32
    ||| u == 0x85
    ||| u == 0xA0
    ||| u == 0x1680
    ||| 0x2000 <= u <= 0x200A
    ||| u == 0x2028
    ||| u == 0x2029
    ||| u == 0x202F
    ||| u == 0x205F
    ||| u == 0x3000
}

pub fn is_unicode_ws(c: char) -> (r: bool)
    ensures
        r == unicode_ws(c),
{
    let u = c as u32;
    (9 <= u && u <= 13) || u == 32 || u == 0x85 || u == 0xA0 || u == 0x1680 || (0x2000 <= u
        && u <= 0x200A) || u == 0x2028 || u == 0x2029 || u == 0x202F || u == 0x205F || u == 0x3000
}

/// Every character of `s` is whitespace.
pub fn all_whitespace(s: &str) -> (r: bool)
    ensures
        r == (forall|i: int| 0 <= i < s@.len() ==> unicode_ws(#[trigger] s@[i])),
{
    let cs = str_chars(s);
    let mut i: usize = 0;
    while i < cs.len()
        invariant
            cs@ == s@,
            0 <= i <= cs.len(),
            forall|k: int| 0 <= k < i ==> unicode_ws(#[trigger] cs@[k]),
        decreases cs.len() - i,
    {
        if !is_unicode_ws(cs[i]) {
            return false;
        }
        i += 1;
    }
    true
}

/// The bytes of an ASCII string are its characters.
pub proof fn lemma_ascii_bytes(s: &str)
    requires
        vstd::utf8::is_ascii_chars(s@),
    ensures
        s.spec_bytes() == Seq::new(s@.len(), |i: int| s@[i] as u8),
{
    vstd::string::is_ascii_spec_bytes(s);
}

/// A line-feed-free input splits into itself.
pub proof fn lemma_split_nl_no_nl(s: Seq<u8>)
    requires
        no_nl(s),
    ensures
        split_nl(s) == seq![s],
    decreases s.len(),
{
    if s.len() == 0 {
        assert(s =~= Seq::<u8>::empty());
        assert(split_nl(s) =~= seq![s]);
    } else {
        let p = s.drop_last();
        assert(no_nl(p)) by {
            assert forall|i: int| 0 <= i < p.len() implies p[i] != NL by {
                assert(p[i] == s[i]);
            }
        }
        lemma_split_nl_no_nl(p);
        assert(s.last() == s[s.len() - 1]);
        assert(s.last() != NL);
        assert(p.push(s.last()) =~= s);
        assert(seq![p].update(0, p.push(s.last())) =~= seq![s]);
        assert(split_nl(s) =~= seq![s]);
    }
}

/// Pieces of a split have no line feed, and there is at least one.
pub proof fn lemma_split_nl(s: Seq<u8>)
    ensures
        split_nl(s).len() >= 1,
        forall|i: int| 0 <= i < split_nl(s).len() ==> no_nl(#[trigger] split_nl(s)[i]),
    decreases s.len(),
{
    if s.len() > 0 {
        lemma_split_nl(s.drop_last());
        let prev = split_nl(s.drop_last());
        if s.last() != NL {
            let l = prev.last().push(s.last());
            assert(no_nl(prev[prev.len() - 1]));
            assert(no_nl(l));
        }
    }
}

/// A split into a single piece means there was no line feed: the piece is
/// the whole input.
pub proof fn lemma_split_nl_single(s: Seq<u8>)
    ensures
        split_nl(s).len() == 1 ==> split_nl(s)[0] == s,
    decreases s.len(),
{
    if s.len() > 0 {
        lemma_split_nl(s.drop_last());
        lemma_split_nl_single(s.drop_last());
        if s.last() != NL && split_nl(s).len() == 1 {
            assert(s.drop_last().push(s.last()) =~= s);
        }
    } else {
        assert(split_nl(s)[0] =~= s);
    }
}

/// Splits bytes at line feeds.
pub fn split_lines(text: &[u8]) -> (r: Vec<Vec<u8>>)
    ensures
        lines_view(r@) == split_nl(text@),
{
    let mut res: Vec<Vec<u8>> = Vec::new();
    let mut cur: Vec<u8> = Vec::new();
    let mut i: usize = 0;
    proof {
        assert(text@.subrange(0, 0) =~= Seq::<u8>::empty());
        assert(lines_view(res@).push(cur@) =~= split_nl(text@.subrange(0, 0)));
    }
    while i < text.len()
        invariant
            0 <= i <= text.len(),
            lines_view(res@).push(cur@) == split_nl(text@.subrange(0, i as int)),
        decreases text.len() - i,
    {
        let ghost pre = text@.subrange(0, i as int);
        let ghost nxt = text@.subrange(0, i + 1);
        assert(nxt.drop_last() =~= pre);
        let b = text[i];
        if b == NL {
            let ghost old_res = res@;
            res.push(cur);
            cur = Vec::new();
            assert(lines_view(res@) =~= lines_view(old_res).push(lines_view(old_res.push(res@.last()))[old_res.len() as int]));
            assert(lines_view(res@).push(cur@) =~= split_nl(nxt));
        } else {
            let ghost old_cur = cur@;
            cur.push(b);
            assert(lines_view(res@).push(cur@) =~= lines_view(res@).push(old_cur).update(res@.len() as int, old_cur.push(b)));
        }
        i += 1;
    }
    proof {
        assert(text@.subrange(0, text@.len() as int) =~= text@);
    }
    res.push(cur);
    assert(lines_view(res@) =~= lines_view(res@.drop_last()).push(res@.last()@));
    res
}

/// `line[..a] + mid + line[b..]`.
pub open spec fn splice(line: Seq<u8>, a: int, b: int, mid: Seq<u8>) -> Seq<u8> {
    line.subrange(0, a) + mid + line.subrange(b, line.len() as int)
}

/// Builds `line[..a] + mid + line[b..]`.
pub fn splice_bytes(line: &Vec<u8>, a: usize, b: usize, mid: &[u8]) -> (r: Vec<u8>)
    requires
        a <= b <= line.len(),
    ensures
        r@ == splice(line@, a as int, b as int, mid@),
{
    let mut r: Vec<u8> = Vec::new();
    for i in 0..a
        invariant
            a <= line.len(),
            r@ == line@.subrange(0, i as int),
    {
        r.push(line[i]);
        assert(r@ =~= line@.subrange(0, i + 1));
    }
    for i in 0..mid.len()
        invariant
            r@ == line@.subrange(0, a as int) + mid@.subrange(0, i as int),
    {
        r.push(mid[i]);
        assert(r@ =~= line@.subrange(0, a as int) + mid@.subrange(0, i + 1));
    }
    assert(mid@.subrange(0, mid@.len() as int) =~= mid@);
    for i in b..line.len()
        invariant
            b <= line.len(),
            r@ == line@.subrange(0, a as int) + mid@ + line@.subrange(b as int, i as int),
    {
        r.push(line[i]);
        assert(r@ =~= line@.subrange(0, a as int) + mid@ + line@.subrange(b as int, i + 1));
    }
    r
}

/// `w` occurs in `line` starting at byte `s`.
pub open spec fn occurs_at(line: Seq<u8>, w: Seq<u8>, s: int) -> bool {
    0 <= s && s + w.len() <= line.len() && line.subrange(s, s + w.len()) == w
}

/// Whether `w` occurs in `line` at `s`.
pub fn matches_at(line: &[u8], w: &[u8], s: usize) -> (r: bool)
    ensures
        r == occurs_at(line@, w@, s as int),
{
    if s > line.len() || w.len() > line.len() - s {
        return false;
    }
    let mut i: usize = 0;
    while i < w.len()
        invariant
            0 <= i <= w.len(),
            s + w.len() <= line.len(),
            forall|k: int| 0 <= k < i ==> line@[s + k] == w@[k],
        decreases w.len() - i,
    {
        if line[s + i] != w[i] {
            assert(line@.subrange(s as int, s + w.len())[i as int] != w@[i as int]);
            return false;
        }
        i += 1;
    }
    assert(line@.subrange(s as int, s + w.len()) =~= w@);
    true
}

/// `str::find` from byte `from`: the first occurrence of `w` at or after it.
pub fn find_from(line: &[u8], w: &[u8], from: usize) -> (r: Option<usize>)
    ensures
        match r {
            Some(s) => from <= s && occurs_at(line@, w@, s as int) && forall|k: int|
                from <= k < s ==> !occurs_at(line@, w@, k),
            None => forall|k: int| from <= k ==> !occurs_at(line@, w@, k),
        },
{
    let mut s = from;
    while s <= line.len() && w.len() <= line.len() - s
        invariant
            from <= s,
            forall|k: int| from <= k < s ==> !occurs_at(line@, w@, k),
        decreases line.len() + 1 - s,
    {
        if matches_at(line, w, s) {
            return Some(s);
        }
        if s == line.len() {
            return None;
        }
        s += 1;
    }
    None
}

/// The characters `String::from_utf8_lossy` decodes from `b`.
pub uninterp spec fn lossy_decode(b: Seq<u8>) -> Seq<char>;

/// The characters of `str::to_lowercase` applied to `s`.
pub uninterp spec fn lowercase(s: Seq<char>) -> Seq<char>;

/// Decodes bytes as UTF-8, replacing invalid sequences.
///
/// Calls `String::from_utf8_lossy`. Trusted: the result is a function of the
/// bytes, and on valid UTF-8 it is the decoded text.
#[verifier::external_body]
pub(crate) fn utf8_lossy(b: &[u8]) -> (r: String)
    ensures
        r@ == lossy_decode(b@),
        valid_utf8(b@) ==> r@ == decode_utf8(b@),
{
    String::from_utf8_lossy(b).into_owned()
}

/// Lowercases text.
///
/// Calls `str::to_lowercase`. Trusted: the result is a function of the
/// text (the Unicode lowercase mapping, not spelled out here).
#[verifier::external_body]
pub(crate) fn str_to_lowercase(s: &str) -> (r: String)
    ensures
        r@ == lowercase(s@),
{
    s.to_lowercase()
}

/// The extension `Path::extension` finds in path `p`.
pub uninterp spec fn path_extension(p: Seq<char>) -> Option<Seq<char>>;

/// The extension of a path, when it has one.
///
/// Calls `Path::extension` (the text after the last `.` of the file name,
/// for a name that does not only start with it). Trusted: the result is a
/// function of the path.
#[verifier::external_body]
pub(crate) fn extension_of(p: &str) -> (r: Option<String>)
    ensures
        match r {
            Some(e) => path_extension(p@) == Some(e@),
            None => path_extension(p@) is None,
        },
{
    std::path::Path::new(p).extension().and_then(|e| e.to_str()).map(|e| e.to_string())
}

/// `s` without its trailing whitespace characters.
pub open spec fn trim_end_spec(s: Seq<char>) -> Seq<char>
    decreases s.len(),
{
    if s.len() > 0 && unicode_ws(s.last()) {
        trim_end_spec(s.drop_last())
    } else {
        s
    }
}

/// Drops trailing whitespace.
///
/// Calls `str::trim_end`, documented to remove the trailing characters that
/// have the Unicode `White_Space` property (`unicode_ws`).
#[verifier::external_body]
pub(crate) fn str_trim_end(s: &str) -> (r: &str)
    ensures
        r@ == trim_end_spec(s@),
{
    s.trim_end()
}

/// UTF-8 bytes of the lowercased text of bytes `l` (the line a search scans).
pub open spec fn lower_bytes(l: Seq<u8>) -> Seq<u8> {
    encode_utf8(lowercase(lossy_decode(l)))
}

/// The lowercased bytes of a line.
pub fn lowercase_line(l: &[u8]) -> (r: Vec<u8>)
    ensures
        r@ == lower_bytes(l@),
{
    let s = utf8_lossy(l);
    let low = str_to_lowercase(s.as_str());
    vstd::slice::slice_to_vec(low.as_str().as_bytes())
}

/// UTF-8 bytes of the lowercased query.
pub fn lowercase_str(q: &str) -> (r: Vec<u8>)
    ensures
        r@ == encode_utf8(lowercase(q@)),
{
    let low = str_to_lowercase(q);
    vstd::slice::slice_to_vec(low.as_str().as_bytes())
}

/// Byte length of the UTF-8 encoding of a `White_Space` character starting
/// at `i` in `l`, or 0 when none starts there.
pub open spec fn ws_char_len(l: Seq<u8>, i: int) -> int {
    let n = l.len() as int;
    if 0 <= i < n && ascii_ws(l[i]) || (0 <= i < n && l[i] == 11) {
        1
    } else if 0 <= i && i + 1 < n && l[i] == 0xC2 && (l[i + 1] == 0x85 || l[i + 1] == 0xA0) {
        2
    } else if 0 <= i && i + 2 < n && ((l[i] == 0xE1 && l[i + 1] == 0x9A && l[i + 2] == 0x80) || (l[i] == 0xE2
        && l[i + 1] == 0x80 && ((0x80 <= l[i + 2] <= 0x8A) || l[i + 2] == 0xA8 || l[i + 2] == 0xA9 || l[i + 2]
        == 0xAF)) || (l[i] == 0xE2 && l[i + 1] == 0x81 && l[i + 2] == 0x9F) || (l[i] == 0xE3 && l[i + 1] == 0x80
        && l[i + 2] == 0x80)) {
        3
    } else {
        0
    }
}

/// Bytes of the whitespace characters at the start of `l[i..]`.
pub open spec fn lead_ws_from(l: Seq<u8>, i: int) -> int
    decreases l.len() - i,
{
    if i < 0 || i >= l.len() || ws_char_len(l, i) == 0 {
        0
    } else {
        ws_char_len(l, i) + lead_ws_from(l, i + ws_char_len(l, i))
    }
}

/// `l.len() - l.trim_start().len()`: bytes of leading whitespace.
pub open spec fn leading_ws(l: Seq<u8>) -> int {
    lead_ws_from(l, 0)
}

/// `l.trim().is_empty()`: the line holds whitespace only.
pub open spec fn blank(l: Seq<u8>) -> bool {
    leading_ws(l) == l.len()
}

/// Exec form of [`ws_char_len`].
pub fn ws_char_len_at(l: &[u8], i: usize) -> (r: usize)
    ensures
        r == ws_char_len(l@, i as int),
{
    let n = l.len();
    if i < n && (is_ascii_ws(l[i]) || l[i] == 11) {
        1
    } else if i < n && n - i > 1 && l[i] == 0xC2 && (l[i + 1] == 0x85 || l[i + 1] == 0xA0) {
        2
    } else if i < n && n - i > 2 && ((l[i] == 0xE1 && l[i + 1] == 0x9A && l[i + 2] == 0x80) || (l[i] == 0xE2
        && l[i + 1] == 0x80 && ((0x80 <= l[i + 2] && l[i + 2] <= 0x8A) || l[i + 2] == 0xA8 || l[i + 2] == 0xA9
        || l[i + 2] == 0xAF)) || (l[i] == 0xE2 && l[i + 1] == 0x81 && l[i + 2] == 0x9F) || (l[i] == 0xE3 && l[i
        + 1] == 0x80 && l[i + 2] == 0x80)) {
        3
    } else {
        0
    }
}

pub proof fn lemma_lead_ws_bound(l: Seq<u8>, i: int)
    requires
        0 <= i <= l.len(),
    ensures
        0 <= lead_ws_from(l, i) <= l.len() - i,
    decreases l.len() - i,
{
    if i < l.len() && ws_char_len(l, i) > 0 {
        lemma_lead_ws_bound(l, i + ws_char_len(l, i));
    }
}

/// Bytes of leading whitespace of a line.
pub fn leading_ws_len(l: &[u8]) -> (r: usize)
    ensures
        r == leading_ws(l@),
        r <= l@.len(),
{
    let mut i: usize = 0;
    proof {
        lemma_lead_ws_bound(l@, 0);
    }
    loop
        invariant
            0 <= i <= l.len(),
            lead_ws_from(l@, 0) == i + lead_ws_from(l@, i as int),
        decreases l.len() - i,
    {
        let w = ws_char_len_at(l, i);
        if w == 0 || i >= l.len() {
            proof {
                lemma_lead_ws_bound(l@, i as int);
            }
            return i;
        }
        proof {
            lemma_lead_ws_bound(l@, i + w);
        }
        i = i + w;
    }
}

/// The byte contents of a vector of lines.
pub open spec fn lines_view(v: Seq<Vec<u8>>) -> Seq<Seq<u8>> {
    v.map_values(|l: Vec<u8>| l@)
}

/// Copies a vector of byte lines.
pub fn clone_lines(v: &Vec<Vec<u8>>) -> (r: Vec<Vec<u8>>)
    ensures
        lines_view(r@) == lines_view(v@),
{
    let mut r: Vec<Vec<u8>> = Vec::new();
    for i in 0..v.len()
        invariant
            r.len() == i,
            i <= v.len(),
            forall|j: int| 0 <= j < i ==> r@[j]@ == v@[j]@,
    {
        let l = v[i].clone();
        assert(l@ =~= v@[i as int]@);
        r.push(l);
    }
    assert(lines_view(r@) =~= lines_view(v@));
    r
}


/// Byte value of a carriage return.
pub const CR: u8 = 13u8;

/// `l` without one trailing carriage return.
pub open spec fn strip_cr(l: Seq<u8>) -> Seq<u8> {
    if l.len() > 0 && l.last() == CR { l.drop_last() } else { l }
}

/// The lines of `str::lines`: the text split at line feeds, a carriage
/// return right before a line feed dropped, no line after a final line
/// feed, and none at all for empty text.
pub open spec fn lines_of(b: Seq<u8>) -> Seq<Seq<u8>> {
    let parts = split_nl(b);
    if b.len() == 0 {
        Seq::empty()
    } else {
        let k = if b.last() == NL { parts.len() - 1 } else { parts.len() as int };
        Seq::new(k as nat, |i: int| if i < parts.len() - 1 { strip_cr(parts[i]) } else { parts[i] })
    }
}

/// The lines of a file's text as the editor holds them: `lines_of`, or one
/// empty line for empty text.
pub open spec fn buffer_lines(b: Seq<u8>) -> Seq<Seq<u8>> {
    if lines_of(b).len() == 0 { seq![Seq::<u8>::empty()] } else { lines_of(b) }
}

/// Lines joined with line feeds.
pub open spec fn join_nl(ls: Seq<Seq<u8>>) -> Seq<u8>
    decreases ls.len(),
{
    if ls.len() == 0 {
        Seq::empty()
    } else if ls.len() == 1 {
        ls[0]
    } else {
        join_nl(ls.drop_last()) + seq![NL] + ls.last()
    }
}

/// Splits text into the editor's lines (see [`buffer_lines`]).
pub fn content_lines(text: &[u8]) -> (r: Vec<Vec<u8>>)
    ensures
        lines_view(r@) == buffer_lines(text@),
{
    let mut r = str_lines(text);
    if r.len() == 0 {
        r.push(Vec::new());
        assert(lines_view(r@) =~= seq![Seq::<u8>::empty()]);
    }
    r
}

/// Splits text into lines as `str::lines` does (see [`lines_of`]).
pub fn str_lines(text: &[u8]) -> (r: Vec<Vec<u8>>)
    ensures
        lines_view(r@) == lines_of(text@),
{
    let mut parts = split_lines(text);
    let ghost ps = split_nl(text@);
    proof {
        lemma_split_nl(text@);
    }
    if text.len() == 0 {
        let r: Vec<Vec<u8>> = Vec::new();
        assert(lines_view(r@) =~= lines_of(text@));
        return r;
    }
    let total = parts.len();
    if text[text.len() - 1] == NL {
        let ghost before = parts@;
        parts.pop();
        assert(lines_view(parts@) =~= lines_view(before).drop_last());
    }
    let n = parts.len();
    let ghost k = n as int;
    proof {
        assert forall|j: int| 0 <= j < n implies #[trigger] parts@[j]@ == ps[j] by {
            assert(lines_view(parts@)[j] == parts@[j]@);
        }
    }
    let mut r: Vec<Vec<u8>> = Vec::new();
    let mut i: usize = 0;
    while i < n
        invariant
            n == parts.len(),
            0 <= i <= n,
            k == n,
            n <= ps.len(),
            total == ps.len(),
            forall|j: int| 0 <= j < n ==> #[trigger] parts@[j]@ == ps[j],
            lines_view(r@) == Seq::new(i as nat, |j: int| if j < ps.len() - 1 { strip_cr(ps[j]) } else { ps[j] }),
        decreases n - i,
    {
        let ghost before = r@;
        assert(parts@[i as int]@ == ps[i as int]);
        let line = &parts[i];
        let mut l: Vec<u8> = Vec::new();
        let len = line.len();
        let strip = i + 1 < total && len > 0 && line[len - 1] == CR;
        let m = if strip { len - 1 } else { len };
        let mut j: usize = 0;
        while j < m
            invariant
                0 <= j <= m <= len,
                len == line@.len(),
                l@ == line@.subrange(0, j as int),
            decreases m - j,
        {
            l.push(line[j]);
            j += 1;
            assert(l@ =~= line@.subrange(0, j as int));
        }
        proof {
            assert(line@ == ps[i as int]);
            assert(line@.subrange(0, len as int) =~= line@);
            if len > 0 {
                assert(line@.subrange(0, len - 1) =~= line@.drop_last());
                assert(line@.last() == line@[len - 1]);
            }
            assert(l@ == if (i as int) < ps.len() - 1 { strip_cr(ps[i as int]) } else { ps[i as int] });
        }
        let ghost lv = l@;
        r.push(l);
        assert(lines_view(r@) =~= lines_view(before).push(lv));
        assert(lines_view(r@) =~= Seq::new((i + 1) as nat, |j: int| if j < ps.len() - 1 { strip_cr(ps[j]) } else { ps[j] }));
        i += 1;
    }
    proof {
        assert(lines_of(text@) =~= Seq::new(k as nat, |j: int| if j < ps.len() - 1 { strip_cr(ps[j]) } else { ps[j] }));
    }
    assert(lines_view(r@) =~= lines_of(text@));
    r
}


/// Joins lines with line feeds (the text a save writes).
pub fn join_lines(ls: &Vec<Vec<u8>>) -> (r: Vec<u8>)
    ensures
        r@ == join_nl(lines_view(ls@)),
{
    let ghost lv = lines_view(ls@);
    let mut r: Vec<u8> = Vec::new();
    let mut i: usize = 0;
    assert(join_nl(lv.subrange(0, 0)) =~= Seq::<u8>::empty());
    while i < ls.len()
        invariant
            lv == lines_view(ls@),
            0 <= i <= ls.len(),
            r@ == join_nl(lv.subrange(0, i as int)),
        decreases ls.len() - i,
    {
        let ghost pre = r@;
        if i > 0 {
            r.push(NL);
        }
        let line = &ls[i];
        let mut j: usize = 0;
        let ghost mid = r@;
        while j < line.len()
            invariant
                0 <= j <= line.len(),
                r@ == mid + line@.subrange(0, j as int),
            decreases line.len() - j,
        {
            r.push(line[j]);
            j += 1;
            assert(r@ =~= mid + line@.subrange(0, j as int));
        }
        proof {
            assert(line@.subrange(0, line@.len() as int) =~= line@);
            assert(lv[i as int] == line@);
            let sub = lv.subrange(0, i + 1);
            assert(sub.drop_last() =~= lv.subrange(0, i as int));
            if i == 0 {
                assert(r@ =~= join_nl(sub));
            } else {
                assert(r@ =~= join_nl(sub));
            }
        }
        i += 1;
    }
    assert(lv.subrange(0, ls.len() as int) =~= lv);
    r
}

/// Appending bytes without a line feed extends the last piece of a split.
proof fn lemma_split_append(x: Seq<u8>, b: Seq<u8>)
    requires
        no_nl(b),
    ensures
        split_nl(x + b) == split_nl(x).update(split_nl(x).len() - 1, split_nl(x).last() + b),
    decreases b.len(),
{
    lemma_split_nl(x);
    if b.len() == 0 {
        assert(x + b =~= x);
        assert(split_nl(x).last() + b =~= split_nl(x).last());
        assert(split_nl(x).update(split_nl(x).len() - 1, split_nl(x).last()) =~= split_nl(x));
    } else {
        let b0 = b.drop_last();
        assert(no_nl(b0)) by {
            assert forall|i: int| 0 <= i < b0.len() implies b0[i] != NL by {
                assert(b0[i] == b[i]);
            }
        }
        lemma_split_append(x, b0);
        assert((x + b).drop_last() =~= x + b0);
        assert((x + b).last() == b.last());
        assert(b.last() == b[b.len() - 1]);
        let p = split_nl(x + b0);
        lemma_split_nl(x + b0);
        assert(split_nl(x).last() + b0 + seq![b.last()] =~= split_nl(x).last() + b);
        assert(p.last().push(b.last()) =~= split_nl(x).last() + b);
        assert(split_nl(x + b) =~= split_nl(x).update(split_nl(x).len() - 1, split_nl(x).last() + b));
    }
}

/// Splitting joined line-feed-free lines gives them back.
proof fn lemma_split_join(ls: Seq<Seq<u8>>)
    requires
        ls.len() >= 1,
        forall|i: int| 0 <= i < ls.len() ==> no_nl(#[trigger] ls[i]),
    ensures
        split_nl(join_nl(ls)) == ls,
    decreases ls.len(),
{
    if ls.len() == 1 {
        lemma_split_nl_no_nl(ls[0]);
        assert(split_nl(join_nl(ls)) =~= ls);
    } else {
        let pre = ls.drop_last();
        assert forall|i: int| 0 <= i < pre.len() implies no_nl(#[trigger] pre[i]) by {
            assert(pre[i] == ls[i]);
        }
        lemma_split_join(pre);
        let j = join_nl(pre);
        assert((j + seq![NL]).drop_last() =~= j);
        assert(split_nl(j + seq![NL]) == split_nl(j).push(Seq::<u8>::empty()));
        assert(no_nl(ls.last())) by {
            assert(ls.last() == ls[ls.len() - 1]);
        }
        lemma_split_append(j + seq![NL], ls.last());
        assert(Seq::<u8>::empty() + ls.last() =~= ls.last());
        assert(join_nl(ls) == j + seq![NL] + ls.last());
        assert(split_nl(join_nl(ls)) =~= ls);
    }
}

/// The last byte of joined lines whose last line is not empty is that
/// line's last byte.
proof fn lemma_join_last(ls: Seq<Seq<u8>>)
    requires
        ls.len() >= 1,
        ls.last().len() > 0,
    ensures
        join_nl(ls).len() > 0,
        join_nl(ls).last() == ls.last().last(),
{
    if ls.len() > 1 {
        let j = join_nl(ls.drop_last());
        assert(join_nl(ls) == j + seq![NL] + ls.last());
        assert((j + seq![NL] + ls.last()).last() == ls.last().last());
    }
}

/// Reading back what a save wrote gives the same lines, when the last line
/// is not empty (or is the only one) and no other line ends with a
/// carriage return.
pub proof fn law_reload_after_save(ls: Seq<Seq<u8>>)
    requires
        ls.len() >= 1,
        forall|i: int| 0 <= i < ls.len() ==> no_nl(#[trigger] ls[i]),
        ls.len() == 1 || ls.last().len() > 0,
        forall|i: int| 0 <= i < ls.len() - 1 ==> !(#[trigger] ls[i].len() > 0 && ls[i].last() == CR),
    ensures
        buffer_lines(join_nl(ls)) == ls,
{
    lemma_split_join(ls);
    let b = join_nl(ls);
    if ls.last().len() > 0 {
        lemma_join_last(ls);
        assert(ls.last().last() != NL) by {
            assert(no_nl(ls[ls.len() - 1]));
            assert(ls.last().last() == ls[ls.len() - 1][ls.last().len() - 1]);
        }
        assert forall|i: int| 0 <= i < ls.len() implies #[trigger] lines_of(b)[i] == ls[i] by {
            if i < ls.len() - 1 {
                assert(strip_cr(ls[i]) == ls[i]);
            }
        }
        assert(lines_of(b) =~= ls);
    } else {
        assert(ls.len() == 1);
        assert(b == ls[0]);
        assert(b.len() == 0);
        assert(ls =~= seq![Seq::<u8>::empty()]);
    }
}


/// The decimal digits of `n`.
pub open spec fn decimal(n: nat) -> Seq<char>
    decreases n,
{
    if n < 10 {
        seq![digit_char(n)]
    } else {
        decimal(n / 10).push(digit_char(n % 10))
    }
}

pub open spec fn digit_char(d: nat) -> char {
    if d == 0 { '0' } else if d == 1 { '1' } else if d == 2 { '2' } else if d == 3 { '3' } else if d == 4 {
        '4'
    } else if d == 5 { '5' } else if d == 6 { '6' } else if d == 7 { '7' } else if d == 8 { '8' } else { '9' }
}

/// The one-character string of a decimal digit.
fn digit_str(d: u64) -> (r: &'static str)
    requires
        d < 10,
    ensures
        r@ == seq![digit_char(d as nat)],
{
    proof {
        reveal_strlit("0");
        reveal_strlit("1");
        reveal_strlit("2");
        reveal_strlit("3");
        reveal_strlit("4");
        reveal_strlit("5");
        reveal_strlit("6");
        reveal_strlit("7");
        reveal_strlit("8");
        reveal_strlit("9");
    }
    if d == 0 { "0" } else if d == 1 { "1" } else if d == 2 { "2" } else if d == 3 { "3" } else if d == 4 {
        "4"
    } else if d == 5 { "5" } else if d == 6 { "6" } else if d == 7 { "7" } else if d == 8 { "8" } else { "9" }
}

/// Appends the decimal digits of `n` (what `format!("{}", n)` writes).
pub fn push_decimal(s: &mut String, n: u64)
    ensures
        final(s)@ == old(s)@ + decimal(n as nat),
    decreases n,
{
    if n >= 10 {
        push_decimal(s, n / 10);
    }
    s.append(digit_str(n % 10));
}

/// `str::trim`: without leading and trailing whitespace.
pub open spec fn trim_start_spec(s: Seq<char>) -> Seq<char>
    decreases s.len(),
{
    if s.len() > 0 && unicode_ws(s[0]) {
        trim_start_spec(s.drop_first())
    } else {
        s
    }
}

/// Drops leading and trailing whitespace.
///
/// Calls `str::trim`, documented to remove the leading and trailing
/// characters with the Unicode `White_Space` property.
#[verifier::external_body]
pub(crate) fn str_trim(s: &str) -> (r: &str)
    ensures
        r@ == trim_start_spec(trim_end_spec(s@)),
{
    s.trim()
}

} // verus!
