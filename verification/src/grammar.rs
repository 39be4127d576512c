//! Lexer and item-grammar parser.
//!
//! `Document := (Item | blank-line)+`, `Item := KeywordLine Object*`.  The
//! document is first split into newline-terminated lines, then a single
//! left-to-right pass classifies each line and assembles items.  The whole
//! pass is modelled by the spec-level state machine [`SpecState`] /
//! [`spec_step`] / [`spec_run`]; [`parse_document`] is proved to return
//! exactly what the model says, for every input.

use vstd::prelude::*;

use crate::document::{
    is_base64_byte, is_keyword_byte, is_printable_byte, items_view, objects_view, wf_arguments,
    wf_item, wf_items, wf_keyword, wf_keyword_line, wf_object, wf_object_data, Document, Item,
    ItemModel, Keyword, KeywordLine, KeywordLineModel, Object, ObjectModel, DASH, LF, SP,
};
use crate::errors::ParseError;

verus! {

/// Deep view of a vector of byte lines.
pub open spec fn lines_view(v: Seq<Vec<u8>>) -> Seq<Seq<u8>> {
    Seq::new(v.len(), |i: int| v[i]@)
}

/// Splitting a byte sequence at every newline.  Each newline terminates a
/// line; bytes after the last newline form a final, unterminated line.
pub open spec fn spec_split_lines(s: Seq<u8>) -> Seq<Seq<u8>>
    decreases s.len(),
{
    if s.len() == 0 {
        Seq::empty()
    } else {
        let rest = spec_split_lines(s.drop_first());
        if s[0] == LF {
            seq![Seq::<u8>::empty()] + rest
        } else {
            if rest.len() == 0 {
                seq![seq![s[0]]]
            } else {
                seq![seq![s[0]] + rest[0]] + rest.drop_first()
            }
        }
    }
}

/// The inverse of splitting: each line followed by the newline that
/// terminated it.
pub open spec fn unlines(ls: Seq<Seq<u8>>) -> Seq<u8>
    decreases ls.len(),
{
    if ls.len() == 0 {
        Seq::empty()
    } else {
        ls[0] + seq![LF] + unlines(ls.drop_first())
    }
}

/// No line contains a newline of its own.
pub open spec fn lines_lf_free(ls: Seq<Seq<u8>>) -> bool {
    forall|i: int, j: int|
        0 <= i < ls.len() && 0 <= j < ls[i].len() ==> #[trigger] ls[i][j] != LF
}

/// Splitting after joining gives back the lines: `spec_split_lines` is a
/// left inverse of `unlines` on newline-free lines.
pub proof fn lemma_split_one_line(l: Seq<u8>, t: Seq<u8>)
    requires
        forall|j: int| 0 <= j < l.len() ==> l[j] != LF,
    ensures
        spec_split_lines(l + seq![LF] + t) == seq![l] + spec_split_lines(t),
    decreases l.len(),
{
    let s = l + seq![LF] + t;
    if l.len() == 0 {
        assert(s[0] == LF);
        assert(s.drop_first() =~= t);
        assert(seq![l] =~~= seq![Seq::<u8>::empty()]);
    } else {
        lemma_split_one_line(l.drop_first(), t);
        assert(s[0] == l[0]);
        assert(s[0] != LF);
        assert(s.drop_first() =~= l.drop_first() + seq![LF] + t);
        let rest = spec_split_lines(s.drop_first());
        assert(rest == seq![l.drop_first()] + spec_split_lines(t));
        assert(rest.len() > 0);
        assert(rest[0] == l.drop_first());
        assert(seq![s[0]] + rest[0] =~= l);
        assert(rest.drop_first() =~= spec_split_lines(t));
        assert(spec_split_lines(s) =~~= seq![l] + spec_split_lines(t));
    }
}

pub proof fn lemma_split_unlines(ls: Seq<Seq<u8>>)
    requires
        lines_lf_free(ls),
    ensures
        spec_split_lines(unlines(ls)) == ls,
    decreases ls.len(),
{
    if ls.len() == 0 {
    } else {
        lemma_split_unlines(ls.drop_first());
        lemma_split_one_line(ls[0], unlines(ls.drop_first()));
        assert(spec_split_lines(unlines(ls)) =~~= ls);
    }
}

/// A run of lines, each re-extended with a leading partial line.
pub open spec fn prepend_all(cur: Seq<u8>, ls: Seq<Seq<u8>>) -> Seq<Seq<u8>> {
    if ls.len() == 0 {
        if cur.len() == 0 {
            Seq::empty()
        } else {
            seq![cur]
        }
    } else {
        seq![cur + ls[0]] + ls.drop_first()
    }
}

/// Splits the input into its newline-terminated lines.
pub fn split_lines(input: &[u8]) -> (r: Vec<Vec<u8>>)
    ensures
        lines_view(r@) == spec_split_lines(input@),
{
    let n = input.len();
    let mut done: Vec<Vec<u8>> = Vec::new();
    let mut cur: Vec<u8> = Vec::new();
    let mut pos: usize = 0;
    proof {
        assert(input@.skip(0) =~= input@);
        assert(prepend_all(Seq::<u8>::empty(), spec_split_lines(input@)) =~~= spec_split_lines(
            input@,
        ));
    }
    while pos < n
        invariant
            0 <= pos <= n,
            n == input@.len(),
            spec_split_lines(input@) =~~= lines_view(done@) + prepend_all(
                cur@,
                spec_split_lines(input@.skip(pos as int)),
            ),
        decreases n - pos,
    {
        let b = input[pos];
        proof {
            assert(input@.skip(pos as int)[0] == input@[pos as int]);
            assert(input@.skip(pos as int).drop_first() =~= input@.skip(pos as int + 1));
        }
        let ghost before = spec_split_lines(input@.skip(pos as int));
        let ghost after = spec_split_lines(input@.skip(pos as int + 1));
        if b == LF {
            proof {
                assert(before =~~= seq![Seq::<u8>::empty()] + after);
                assert(lines_view(done@) + prepend_all(cur@, before) =~~= lines_view(
                    done@.push(cur),
                ) + prepend_all(Seq::<u8>::empty(), after));
            }
            done.push(cur);
            cur = Vec::new();
        } else {
            proof {
                if after.len() == 0 {
                    assert(before =~~= seq![seq![input@[pos as int]]]);
                    assert(prepend_all(cur@, before) =~~= prepend_all(
                        cur@.push(input@[pos as int]),
                        after,
                    ));
                } else {
                    assert(before =~~= seq![seq![input@[pos as int]] + after[0]]
                        + after.drop_first());
                    assert(cur@ + before[0] =~= cur@.push(input@[pos as int]) + after[0]);
                    assert(prepend_all(cur@, before) =~~= prepend_all(
                        cur@.push(input@[pos as int]),
                        after,
                    ));
                }
            }
            cur.push(b);
        }
        pos = pos + 1;
    }
    proof {
        assert(input@.skip(n as int) =~= Seq::<u8>::empty());
    }
    if cur.len() > 0 {
        proof {
            assert(lines_view(done@.push(cur)) =~~= lines_view(done@) + seq![cur@]);
        }
        done.push(cur);
    }
    done
}

/// `"-----BEGIN "`: five dashes, BEGIN, one space.
pub open spec fn begin_tag() -> Seq<u8> {
    seq![DASH, DASH, DASH, DASH, DASH, 66, 69, 71, 73, 78, SP]
}

/// `"-----END "`: five dashes, END, one space.
pub open spec fn end_tag() -> Seq<u8> {
    seq![DASH, DASH, DASH, DASH, DASH, 69, 78, 68, SP]
}

/// The five dashes closing a delimiter line.
pub open spec fn dashes() -> Seq<u8> {
    seq![DASH, DASH, DASH, DASH, DASH]
}

/// `BeginLine ::= "-----BEGIN " Keyword "-----" NL`
pub open spec fn is_begin_line(l: Seq<u8>) -> bool {
    &&& l.len() >= 17
    &&& l.subrange(0, 11) == begin_tag()
    &&& l.subrange(l.len() - 5, l.len() as int) == dashes()
    &&& wf_keyword(l.subrange(11, l.len() - 5))
}

pub open spec fn begin_keyword(l: Seq<u8>) -> Seq<u8> {
    l.subrange(11, l.len() - 5)
}

/// `EndLine ::= "-----END " Keyword "-----" NL`
pub open spec fn is_end_line(l: Seq<u8>) -> bool {
    &&& l.len() >= 15
    &&& l.subrange(0, 9) == end_tag()
    &&& l.subrange(l.len() - 5, l.len() as int) == dashes()
    &&& wf_keyword(l.subrange(9, l.len() - 5))
}

pub open spec fn end_keyword(l: Seq<u8>) -> Seq<u8> {
    l.subrange(9, l.len() - 5)
}

/// Length of the keyword prefix of a line: the index of the first byte that
/// is not a keyword character.
pub open spec fn keyword_prefix_len(l: Seq<u8>) -> int
    decreases l.len(),
{
    if l.len() == 0 || !is_keyword_byte(l[0]) {
        0
    } else {
        1 + keyword_prefix_len(l.drop_first())
    }
}

pub proof fn lemma_keyword_prefix_len(l: Seq<u8>)
    ensures
        0 <= keyword_prefix_len(l) <= l.len(),
        forall|i: int| 0 <= i < keyword_prefix_len(l) ==> is_keyword_byte(l[i]),
        keyword_prefix_len(l) < l.len() ==> !is_keyword_byte(l[keyword_prefix_len(l)]),
    decreases l.len(),
{
    if l.len() == 0 || !is_keyword_byte(l[0]) {
    } else {
        lemma_keyword_prefix_len(l.drop_first());
        assert forall|i: int| 0 <= i < keyword_prefix_len(l) implies is_keyword_byte(
            l[i],
        ) by {
            if i > 0 {
                assert(l.drop_first()[i - 1] == l[i]);
            }
        }
        if keyword_prefix_len(l) < l.len() {
            assert(l.drop_first()[keyword_prefix_len(l) - 1] == l[keyword_prefix_len(l)]);
        }
    }
}

/// Index of the first byte that is not in the base64 alphabet (the line
/// length when every byte is).
pub open spec fn first_non_base64(l: Seq<u8>) -> int
    decreases l.len(),
{
    if l.len() == 0 {
        0
    } else if !is_base64_byte(l[0]) {
        0
    } else {
        1 + first_non_base64(l.drop_first())
    }
}

pub proof fn lemma_first_non_base64(l: Seq<u8>)
    ensures
        0 <= first_non_base64(l) <= l.len(),
        forall|i: int| 0 <= i < first_non_base64(l) ==> is_base64_byte(l[i]),
        first_non_base64(l) < l.len() ==> !is_base64_byte(l[first_non_base64(l)]),
    decreases l.len(),
{
    if l.len() == 0 || !is_base64_byte(l[0]) {
    } else {
        lemma_first_non_base64(l.drop_first());
        assert forall|i: int| 0 <= i < first_non_base64(l) implies is_base64_byte(l[i]) by {
            if i > 0 {
                assert(l.drop_first()[i - 1] == l[i]);
            }
        }
        if first_non_base64(l) < l.len() {
            assert(l.drop_first()[first_non_base64(l) - 1] == l[first_non_base64(l)]);
        }
    }
}

/// Index of the first byte that is not printable ASCII.
pub open spec fn first_non_printable(l: Seq<u8>) -> int
    decreases l.len(),
{
    if l.len() == 0 {
        0
    } else if !is_printable_byte(l[0]) {
        0
    } else {
        1 + first_non_printable(l.drop_first())
    }
}

pub proof fn lemma_first_non_printable(l: Seq<u8>)
    ensures
        0 <= first_non_printable(l) <= l.len(),
        forall|i: int| 0 <= i < first_non_printable(l) ==> is_printable_byte(l[i]),
        first_non_printable(l) < l.len() ==> !is_printable_byte(l[first_non_printable(l)]),
    decreases l.len(),
{
    if l.len() == 0 || !is_printable_byte(l[0]) {
    } else {
        lemma_first_non_printable(l.drop_first());
        assert forall|i: int| 0 <= i < first_non_printable(l) implies is_printable_byte(
            l[i],
        ) by {
            if i > 0 {
                assert(l.drop_first()[i - 1] == l[i]);
            }
        }
        if first_non_printable(l) < l.len() {
            assert(l.drop_first()[first_non_printable(l) - 1] == l[first_non_printable(l)]);
        }
    }
}

/// Tests [`is_keyword_byte`].
pub fn keyword_byte(b: u8) -> (r: bool)
    ensures
        r == is_keyword_byte(b),
{
    (65 <= b && b <= 90) || (97 <= b && b <= 122) || (48 <= b && b <= 57) || b == DASH
}

/// Tests [`is_base64_byte`].
pub fn base64_byte(b: u8) -> (r: bool)
    ensures
        r == is_base64_byte(b),
{
    (65 <= b && b <= 90) || (97 <= b && b <= 122) || (48 <= b && b <= 57) || b == 43 || b == 47
        || b == 61
}

/// Tests [`is_printable_byte`].
pub fn printable_byte(b: u8) -> (r: bool)
    ensures
        r == is_printable_byte(b),
{
    32 <= b && b <= 126
}

/// Computes [`keyword_prefix_len`].
fn scan_keyword_prefix(l: &Vec<u8>) -> (r: usize)
    ensures
        r == keyword_prefix_len(l@),
{
    let mut i: usize = 0;
    proof {
        assert(l@.skip(0) =~= l@);
    }
    while i < l.len() && keyword_byte(l[i])
        invariant
            0 <= i <= l@.len(),
            keyword_prefix_len(l@) == i + keyword_prefix_len(l@.skip(i as int)),
            forall|j: int| 0 <= j < i ==> is_keyword_byte(l@[j]),
        decreases l@.len() - i,
    {
        proof {
            assert(l@.skip(i as int)[0] == l@[i as int]);
            assert(l@.skip(i as int).drop_first() =~= l@.skip(i as int + 1));
        }
        i = i + 1;
    }
    proof {
        if i < l@.len() {
            assert(l@.skip(i as int)[0] == l@[i as int]);
        }
    }
    i
}

/// Computes [`first_non_base64`].
fn scan_base64(l: &Vec<u8>) -> (r: usize)
    ensures
        r == first_non_base64(l@),
{
    let mut i: usize = 0;
    proof {
        assert(l@.skip(0) =~= l@);
    }
    while i < l.len() && base64_byte(l[i])
        invariant
            0 <= i <= l@.len(),
            first_non_base64(l@) == i + first_non_base64(l@.skip(i as int)),
        decreases l@.len() - i,
    {
        proof {
            assert(l@.skip(i as int)[0] == l@[i as int]);
            assert(l@.skip(i as int).drop_first() =~= l@.skip(i as int + 1));
        }
        i = i + 1;
    }
    proof {
        if i < l@.len() {
            assert(l@.skip(i as int)[0] == l@[i as int]);
        }
    }
    i
}

/// Computes [`first_non_printable`] over `l` from position `from`.
fn scan_printable(l: &Vec<u8>, from: usize) -> (r: usize)
    requires
        from <= l@.len(),
    ensures
        r == first_non_printable(l@.skip(from as int)),
{
    let mut i: usize = from;
    while i < l.len() && printable_byte(l[i])
        invariant
            from <= i <= l@.len(),
            first_non_printable(l@.skip(from as int)) == i - from + first_non_printable(
                l@.skip(i as int),
            ),
        decreases l@.len() - i,
    {
        proof {
            assert(l@.skip(i as int)[0] == l@[i as int]);
            assert(l@.skip(i as int).drop_first() =~= l@.skip(i as int + 1));
        }
        i = i + 1;
    }
    proof {
        if i < l@.len() {
            assert(l@.skip(i as int)[0] == l@[i as int]);
        }
    }
    i - from
}

/// What a line that begins with a dash turned out to be: a BEGIN or END
/// delimiter line with its keyword, or neither.
enum Delimiter {
    Begin(Keyword),
    End(Keyword),
    Bad,
}

/// Classifies a line whose first byte is a dash as a BEGIN line, an END
/// line, or neither.
fn parse_delimiter(l: &Vec<u8>) -> (r: Delimiter)
    ensures
        match r {
            Delimiter::Begin(kw) => is_begin_line(l@) && kw@ == begin_keyword(l@),
            Delimiter::End(kw) => !is_begin_line(l@) && is_end_line(l@) && kw@ == end_keyword(l@),
            Delimiter::Bad => !is_begin_line(l@) && !is_end_line(l@),
        },
{
    if check_delimiter_shape(l, true) {
        let kw = copy_range(l, 11, l.len() - 5);
        Delimiter::Begin(Keyword { bytes: kw })
    } else if check_delimiter_shape(l, false) {
        let kw = copy_range(l, 9, l.len() - 5);
        Delimiter::End(Keyword { bytes: kw })
    } else {
        Delimiter::Bad
    }
}

/// Checks the fixed parts and the keyword run of a delimiter line.
#[verifier::loop_isolation(false)]
fn check_delimiter_shape(l: &Vec<u8>, begin: bool) -> (r: bool)
    ensures
        begin ==> r == is_begin_line(l@),
        !begin ==> r == is_end_line(l@),
{
    let tag_len: usize = if begin {
        11
    } else {
        9
    };
    if l.len() < tag_len + 6 {
        proof {
            if begin {
                assert(!is_begin_line(l@));
            } else {
                assert(!is_end_line(l@));
            }
        }
        return false;
    }
    let prefix_ok: bool = if begin {
        l[0] == DASH && l[1] == DASH && l[2] == DASH && l[3] == DASH && l[4] == DASH && l[5] == 66
            && l[6] == 69 && l[7] == 71 && l[8] == 73 && l[9] == 78 && l[10] == SP
    } else {
        l[0] == DASH && l[1] == DASH && l[2] == DASH && l[3] == DASH && l[4] == DASH && l[5] == 69
            && l[6] == 78 && l[7] == 68 && l[8] == SP
    };
    proof {
        if begin {
            assert(prefix_ok == (l@.subrange(0, 11) =~= begin_tag()));
        } else {
            assert(prefix_ok == (l@.subrange(0, 9) =~= end_tag()));
        }
    }
    if !prefix_ok {
        return false;
    }
    let n = l.len();
    let suffix_ok = l[n - 5] == DASH && l[n - 4] == DASH && l[n - 3] == DASH && l[n - 2] == DASH
        && l[n - 1] == DASH;
    proof {
        assert(suffix_ok == (l@.subrange(n - 5, n as int) =~= dashes()));
    }
    if !suffix_ok {
        return false;
    }
    let mut i: usize = tag_len;
    while i < n - 5
        invariant
            tag_len <= i <= n - 5,
            n == l@.len(),
            n >= tag_len + 6,
            forall|j: int| tag_len <= j < i ==> is_keyword_byte(l@[j]),
        decreases n - 5 - i,
    {
        let b = l[i];
        if !((65 <= b && b <= 90) || (97 <= b && b <= 122) || (48 <= b && b <= 57) || b == DASH) {
            proof {
                assert(l@.subrange(tag_len as int, n - 5)[i - tag_len] == l@[i as int]);
                assert(!wf_keyword(l@.subrange(tag_len as int, n - 5)));
                if begin {
                    assert(tag_len == 11);
                    assert(!is_begin_line(l@));
                } else {
                    assert(tag_len == 9);
                    assert(!is_end_line(l@));
                }
            }
            return false;
        }
        i = i + 1;
    }
    proof {
        assert(forall|j: int|
            0 <= j < l@.subrange(tag_len as int, n - 5).len() ==> is_keyword_byte(
                #[trigger] l@.subrange(tag_len as int, n - 5)[j],
            ));
        assert(wf_keyword(l@.subrange(tag_len as int, n - 5)));
    }
    true
}

/// Copies `l[from..to]` into a fresh vector.
fn copy_range(l: &Vec<u8>, from: usize, to: usize) -> (r: Vec<u8>)
    requires
        from <= to <= l@.len(),
    ensures
        r@ == l@.subrange(from as int, to as int),
{
    let mut out: Vec<u8> = Vec::new();
    let mut i: usize = from;
    while i < to
        invariant
            from <= i <= to <= l@.len(),
            out@ == l@.subrange(from as int, i as int),
        decreases to - i,
    {
        out.push(l[i]);
        proof {
            assert(out@ =~= l@.subrange(from as int, i + 1));
        }
        i = i + 1;
    }
    out
}

/// Byte-for-byte vector equality.
pub fn bytes_eq(a: &Vec<u8>, b: &Vec<u8>) -> (r: bool)
    ensures
        r == (a@ == b@),
{
    if a.len() != b.len() {
        return false;
    }
    let mut i: usize = 0;
    while i < a.len()
        invariant
            0 <= i <= a@.len(),
            a@.len() == b@.len(),
            forall|j: int| 0 <= j < i ==> a@[j] == b@[j],
        decreases a@.len() - i,
    {
        if a[i] != b[i] {
            return false;
        }
        i = i + 1;
    }
    proof {
        assert(a@ =~= b@);
    }
    true
}

/// The parser state between two lines: collecting items, possibly with an
/// item still open for further objects, or inside an object block, or
/// already failed.
#[verifier::ext_equal]
pub ghost enum SpecState {
    Ready { items: Seq<ItemModel>, cur: Option<ItemModel> },
    Capture { items: Seq<ItemModel>, cur: ItemModel, kw: Seq<u8>, data: Seq<u8> },
    Failed { err: ParseError },
}

/// Closes the open item, if any.
pub open spec fn push_cur(items: Seq<ItemModel>, cur: Option<ItemModel>) -> Seq<ItemModel> {
    match cur {
        Some(c) => items.push(c),
        None => items,
    }
}

/// One step of the parser: consumes the line `l`, which is line number
/// `lineno` and starts at byte offset `off`.
///
/// Outside an object block, a blank line closes the open item, a line
/// beginning with a dash must be a BEGIN delimiter attaching to the open
/// item, and any other line must be a keyword line.  Inside an object
/// block, a line beginning with a dash must be the matching END delimiter,
/// and any other line must consist of base64 bytes, captured verbatim.
pub open spec fn spec_step(st: SpecState, l: Seq<u8>, lineno: int, off: int) -> SpecState {
    match st {
        SpecState::Failed { err } => SpecState::Failed { err },
        SpecState::Ready { items, cur } => {
            if l.len() == 0 {
                SpecState::Ready { items: push_cur(items, cur), cur: None }
            } else if l[0] == DASH {
                if is_begin_line(l) {
                    match cur {
                        Some(c) => SpecState::Capture {
                            items,
                            cur: c,
                            kw: begin_keyword(l),
                            data: Seq::empty(),
                        },
                        None => SpecState::Failed {
                            err: ParseError::SyntaxError { line: lineno as usize },
                        },
                    }
                } else {
                    SpecState::Failed { err: ParseError::SyntaxError { line: lineno as usize } }
                }
            } else {
                let j = keyword_prefix_len(l);
                if j == 0 {
                    SpecState::Failed {
                        err: ParseError::InvalidCharacter { offset: off as usize },
                    }
                } else if j == l.len() {
                    SpecState::Ready {
                        items: push_cur(items, cur),
                        cur: Some(
                            ItemModel {
                                line: KeywordLineModel { keyword: l, arguments: None },
                                objects: Seq::empty(),
                            },
                        ),
                    }
                } else if l[j] == SP {
                    if j + 1 == l.len() {
                        SpecState::Failed {
                            err: ParseError::SyntaxError { line: lineno as usize },
                        }
                    } else {
                        let args = l.subrange(j + 1, l.len() as int);
                        let k = first_non_printable(args);
                        if k == args.len() {
                            SpecState::Ready {
                                items: push_cur(items, cur),
                                cur: Some(
                                    ItemModel {
                                        line: KeywordLineModel {
                                            keyword: l.subrange(0, j),
                                            arguments: Some(args),
                                        },
                                        objects: Seq::empty(),
                                    },
                                ),
                            }
                        } else {
                            SpecState::Failed {
                                err: ParseError::InvalidCharacter {
                                    offset: (off + j + 1 + k) as usize,
                                },
                            }
                        }
                    }
                } else {
                    SpecState::Failed {
                        err: ParseError::InvalidCharacter { offset: (off + j) as usize },
                    }
                }
            }
        },
        SpecState::Capture { items, cur, kw, data } => {
            if l.len() > 0 && l[0] == DASH {
                if is_end_line(l) {
                    if end_keyword(l) == kw {
                        SpecState::Ready {
                            items,
                            cur: Some(
                                ItemModel {
                                    line: cur.line,
                                    objects: cur.objects.push(ObjectModel { keyword: kw, data }),
                                },
                            ),
                        }
                    } else {
                        SpecState::Failed { err: ParseError::MalformedObject }
                    }
                } else {
                    SpecState::Failed { err: ParseError::MalformedObject }
                }
            } else {
                let k = first_non_base64(l);
                if k == l.len() {
                    SpecState::Capture { items, cur, kw, data: data + l + seq![LF] }
                } else {
                    SpecState::Failed {
                        err: ParseError::InvalidCharacter { offset: (off + k) as usize },
                    }
                }
            }
        },
    }
}

/// Runs [`spec_step`] over a run of lines.
pub open spec fn spec_run(ls: Seq<Seq<u8>>, st: SpecState, lineno: int, off: int) -> SpecState
    decreases ls.len(),
{
    if ls.len() == 0 {
        st
    } else {
        spec_run(
            ls.drop_first(),
            spec_step(st, ls[0], lineno, off),
            lineno + 1,
            off + ls[0].len() + 1,
        )
    }
}

/// What the parse returns once every line is consumed.
pub open spec fn spec_finish(st: SpecState) -> Result<Seq<ItemModel>, ParseError> {
    match st {
        SpecState::Ready { items, cur } => Ok(push_cur(items, cur)),
        SpecState::Capture { .. } => Err(ParseError::UnterminatedObject),
        SpecState::Failed { err } => Err(err),
    }
}

/// The parse of a whole document: the input must be non-empty and
/// newline-terminated, and its lines must drive the state machine to a
/// non-failed final state.
pub open spec fn spec_parse(input: Seq<u8>) -> Result<Seq<ItemModel>, ParseError> {
    let ls = spec_split_lines(input);
    if input.len() == 0 || input[input.len() - 1] != LF {
        Err(
            ParseError::SyntaxError {
                line: if ls.len() == 0 {
                    1usize
                } else {
                    ls.len() as usize
                },
            },
        )
    } else {
        spec_finish(spec_run(ls, SpecState::Ready { items: Seq::empty(), cur: None }, 1, 0))
    }
}

/// A failed state stays failed, whatever lines follow.
pub proof fn lemma_run_failed(ls: Seq<Seq<u8>>, err: ParseError, lineno: int, off: int)
    ensures
        spec_run(ls, (SpecState::Failed { err }), lineno, off) == (SpecState::Failed { err }),
    decreases ls.len(),
{
    if ls.len() == 0 {
    } else {
        lemma_run_failed(ls.drop_first(), err, lineno + 1, off + ls[0].len() + 1);
    }
}

/// Joining the split lines of a newline-terminated input gives the input
/// back.
pub proof fn lemma_unlines_split(s: Seq<u8>)
    requires
        s.len() > 0,
        s[s.len() - 1] == LF,
    ensures
        unlines(spec_split_lines(s)) == s,
        spec_split_lines(s).len() > 0,
    decreases s.len(),
{
    if s[0] == LF {
        if s.len() == 1 {
            assert(s.drop_first() =~= Seq::<u8>::empty());
            let ls = spec_split_lines(s);
            assert(ls =~~= seq![Seq::<u8>::empty()]);
            assert(ls.drop_first() =~~= Seq::<Seq<u8>>::empty());
            assert(unlines(ls) == ls[0] + seq![LF] + unlines(ls.drop_first()));
            assert(unlines(spec_split_lines(s)) =~= s);
        } else {
            lemma_unlines_split(s.drop_first());
            assert(spec_split_lines(s) == seq![Seq::<u8>::empty()] + spec_split_lines(
                s.drop_first(),
            ));
            assert(spec_split_lines(s).drop_first() =~~= spec_split_lines(s.drop_first()));
            assert(unlines(spec_split_lines(s)) =~= s);
        }
    } else {
        assert(s.len() >= 2);
        lemma_unlines_split(s.drop_first());
        let rest = spec_split_lines(s.drop_first());
        assert(rest.len() > 0);
        let merged = seq![seq![s[0]] + rest[0]] + rest.drop_first();
        assert(spec_split_lines(s) == merged);
        assert(merged.drop_first() =~~= rest.drop_first());
        assert(unlines(rest) == rest[0] + seq![LF] + unlines(rest.drop_first()));
        assert(unlines(merged) == merged[0] + seq![LF] + unlines(merged.drop_first()));
        assert(unlines(merged.drop_first()) == unlines(rest.drop_first()));
        assert(unlines(merged) =~= seq![s[0]] + rest[0] + seq![LF] + unlines(rest.drop_first()));
        assert(s =~= seq![s[0]] + s.drop_first());
        assert(s.drop_first() == unlines(rest));
        assert(unlines(merged) =~= s);
    }
}

/// The view of the possibly open item.
pub open spec fn opt_item_view(c: Option<Item>) -> Option<ItemModel> {
    match c {
        Some(it) => Some(it@),
        None => None,
    }
}

/// Parses one complete document: `Document := (Item | blank-line)+`.
///
/// Returns exactly what the grammar model [`spec_parse`] assigns to the
/// input bytes, and on success the items are well formed.
#[verifier::loop_isolation(false)]
#[verifier::rlimit(50)]
pub fn parse_document(input: &[u8]) -> (r: Result<Document, ParseError>)
    ensures
        match r {
            Ok(d) => spec_parse(input@) == Ok::<Seq<ItemModel>, ParseError>(d@) && wf_items(d@),
            Err(e) => spec_parse(input@) == Err::<Seq<ItemModel>, ParseError>(e),
        },
{
    let lines = split_lines(input);
    let ghost lsv = spec_split_lines(input@);
    if input.len() == 0 {
        return Err(ParseError::SyntaxError { line: 1 });
    }
    if input[input.len() - 1] != LF {
        proof {
            assert(lsv.len() > 0);
        }
        return Err(ParseError::SyntaxError { line: lines.len() });
    }
    proof {
        lemma_unlines_split(input@);
    }
    let ghost init = SpecState::Ready { items: Seq::<ItemModel>::empty(), cur: None };
    let ghost target = spec_run(lsv, init, 1, 0);

    let n = lines.len();
    let mut items: Vec<Item> = Vec::new();
    let mut cur: Option<Item> = None;
    let mut capturing: bool = false;
    let mut cap_kw: Vec<u8> = Vec::new();
    let mut cap_data: Vec<u8> = Vec::new();
    let mut i: usize = 0;
    let mut off: usize = 0;

    proof {
        assert(lsv.skip(0) =~~= lsv);
        assert(items_view(items@) =~~= Seq::<ItemModel>::empty());
        assert(SpecState::Ready { items: items_view(items@), cur: opt_item_view(cur) } =~~= init);
    }
    while i < n
        invariant
            0 <= i <= n,
            off + unlines(lsv.skip(i as int)).len() == input@.len(),
            !capturing ==> spec_run(
                lsv.skip(i as int),
                SpecState::Ready { items: items_view(items@), cur: opt_item_view(cur) },
                i as int + 1,
                off as int,
            ) == target,
            capturing ==> (cur matches Some(c) && spec_run(
                lsv.skip(i as int),
                SpecState::Capture {
                    items: items_view(items@),
                    cur: c@,
                    kw: cap_kw@,
                    data: cap_data@,
                },
                i as int + 1,
                off as int,
            ) == target),
            wf_items(items_view(items@)),
            cur matches Some(c) ==> wf_item(c@),
            capturing ==> wf_keyword(cap_kw@),
            wf_object_data(cap_data@),
        decreases n - i,
    {
        let line = &lines[i];
        proof {
            assert(lsv.skip(i as int)[0] == lsv[i as int]);
            assert(lsv[i as int] == line@);
            assert(lsv.skip(i as int).drop_first() =~~= lsv.skip(i as int + 1));
            assert(unlines(lsv.skip(i as int)).len() == line@.len() + 1 + unlines(
                lsv.skip(i as int + 1),
            ).len());
        }
        let ghost st_before: SpecState = if capturing {
            SpecState::Capture {
                items: items_view(items@),
                cur: cur->Some_0@,
                kw: cap_kw@,
                data: cap_data@,
            }
        } else {
            SpecState::Ready { items: items_view(items@), cur: opt_item_view(cur) }
        };
        let ghost st_after = spec_step(st_before, line@, i as int + 1, off as int);
        proof {
            assert(spec_run(lsv.skip(i as int), st_before, i as int + 1, off as int) == spec_run(
                lsv.skip(i as int + 1),
                st_after,
                i as int + 2,
                off as int + line@.len() + 1,
            ));
        }
        let ghost items_before = items_view(items@);
        let ghost cur_before = opt_item_view(cur);
        if !capturing {
            if line.len() == 0 {
                if let Some(c) = cur {
                    items.push(c);
                    proof {
                        assert(items_view(items@) =~~= push_cur(items_before, cur_before));
                    }
                }
                cur = None;
                proof {
                    assert(st_after =~~= SpecState::Ready {
                        items: items_view(items@),
                        cur: opt_item_view(cur),
                    });
                }
            } else if line[0] == DASH {
                match parse_delimiter(line) {
                    Delimiter::Begin(kw) => {
                        if cur.is_some() {
                            capturing = true;
                            cap_kw = kw.bytes;
                            cap_data = Vec::new();
                            proof {
                                assert(st_after =~~= SpecState::Capture {
                                    items: items_view(items@),
                                    cur: cur->Some_0@,
                                    kw: cap_kw@,
                                    data: cap_data@,
                                });
                            }
                        } else {
                            let e = ParseError::SyntaxError { line: i + 1 };
                            proof {
                                assert(st_after == SpecState::Failed { err: e });
                                lemma_run_failed(
                                    lsv.skip(i as int + 1),
                                    e,
                                    i as int + 2,
                                    off as int + line@.len() + 1,
                                );
                            }
                            return Err(e);
                        }
                    },
                    Delimiter::End(_) => {
                        let e = ParseError::SyntaxError { line: i + 1 };
                        proof {
                            assert(st_after == SpecState::Failed { err: e });
                            lemma_run_failed(
                                lsv.skip(i as int + 1),
                                e,
                                i as int + 2,
                                off as int + line@.len() + 1,
                            );
                        }
                        return Err(e);
                    },
                    Delimiter::Bad => {
                        let e = ParseError::SyntaxError { line: i + 1 };
                        proof {
                            assert(st_after == SpecState::Failed { err: e });
                            lemma_run_failed(
                                lsv.skip(i as int + 1),
                                e,
                                i as int + 2,
                                off as int + line@.len() + 1,
                            );
                        }
                        return Err(e);
                    },
                }
            } else {
                let j = scan_keyword_prefix(line);
                proof {
                    lemma_keyword_prefix_len(line@);
                }
                if j == 0 {
                    let e = ParseError::InvalidCharacter { offset: off };
                    proof {
                        assert(st_after == SpecState::Failed { err: e });
                        lemma_run_failed(
                            lsv.skip(i as int + 1),
                            e,
                            i as int + 2,
                            off as int + line@.len() + 1,
                        );
                    }
                    return Err(e);
                } else if j == line.len() {
                    let kw = copy_range(line, 0, j);
                    proof {
                        assert(kw@ =~= line@);
                    }
                    if let Some(c) = cur {
                        items.push(c);
                        proof {
                            assert(items_view(items@) =~~= push_cur(items_before, cur_before));
                        }
                    }
                    cur = Some(
                        Item {
                            keyword_line: KeywordLine {
                                keyword: Keyword { bytes: kw },
                                arguments: None,
                            },
                            objects: Vec::new(),
                        },
                    );
                    proof {
                        assert(objects_view(Seq::<Object>::empty()) =~~= Seq::<
                            ObjectModel,
                        >::empty());
                        assert(st_after =~~= SpecState::Ready {
                            items: items_view(items@),
                            cur: opt_item_view(cur),
                        });
                    }
                } else if line[j] == SP {
                    if j + 1 == line.len() {
                        let e = ParseError::SyntaxError { line: i + 1 };
                        proof {
                            assert(line@.subrange(j + 1, line@.len() as int).len() == 0);
                            assert(st_after == SpecState::Failed { err: e });
                            lemma_run_failed(
                                lsv.skip(i as int + 1),
                                e,
                                i as int + 2,
                                off as int + line@.len() + 1,
                            );
                        }
                        return Err(e);
                    }
                    let k = scan_printable(line, j + 1);
                    let ghost args = line@.subrange(j + 1, line@.len() as int);
                    proof {
                        assert(args =~= line@.skip(j + 1));
                        lemma_first_non_printable(args);
                    }
                    if k == line.len() - (j + 1) {
                        let kw = copy_range(line, 0, j);
                        let ar = copy_range(line, j + 1, line.len());
                        if let Some(c) = cur {
                            items.push(c);
                            proof {
                                assert(items_view(items@) =~~= push_cur(items_before, cur_before));
                            }
                        }
                        cur = Some(
                            Item {
                                keyword_line: KeywordLine {
                                    keyword: Keyword { bytes: kw },
                                    arguments: Some(ar),
                                },
                                objects: Vec::new(),
                            },
                        );
                        proof {
                            assert(objects_view(Seq::<Object>::empty()) =~~= Seq::<
                                ObjectModel,
                            >::empty());
                            assert(st_after =~~= SpecState::Ready {
                                items: items_view(items@),
                                cur: opt_item_view(cur),
                            });
                        }
                    } else {
                        let e = ParseError::InvalidCharacter { offset: off + j + 1 + k };
                        proof {
                            assert(st_after == SpecState::Failed { err: e });
                            lemma_run_failed(
                                lsv.skip(i as int + 1),
                                e,
                                i as int + 2,
                                off as int + line@.len() + 1,
                            );
                        }
                        return Err(e);
                    }
                } else {
                    let e = ParseError::InvalidCharacter { offset: off + j };
                    proof {
                        assert(st_after == SpecState::Failed { err: e });
                        lemma_run_failed(
                            lsv.skip(i as int + 1),
                            e,
                            i as int + 2,
                            off as int + line@.len() + 1,
                        );
                    }
                    return Err(e);
                }
            }
        } else {
            // capture mode
            if line.len() > 0 && line[0] == DASH {
                match parse_delimiter(line) {
                    Delimiter::End(k2) => {
                        if bytes_eq(&k2.bytes, &cap_kw) {
                            let obj = Object { keyword: Keyword { bytes: cap_kw }, data: cap_data };
                            cap_kw = Vec::new();
                            cap_data = Vec::new();
                            capturing = false;
                            if let Some(mut c) = cur {
                                let ghost c_before = c@;
                                c.objects.push(obj);
                                proof {
                                    assert(objects_view(c.objects@) =~~= c_before.objects.push(
                                        obj@,
                                    ));
                                    assert(c@ =~~= ItemModel {
                                        line: c_before.line,
                                        objects: c_before.objects.push(obj@),
                                    });
                                }
                                cur = Some(c);
                            }
                            proof {
                                assert(st_after =~~= SpecState::Ready {
                                    items: items_view(items@),
                                    cur: opt_item_view(cur),
                                });
                            }
                        } else {
                            let e = ParseError::MalformedObject;
                            proof {
                                assert(st_after == SpecState::Failed { err: e });
                                lemma_run_failed(
                                    lsv.skip(i as int + 1),
                                    e,
                                    i as int + 2,
                                    off as int + line@.len() + 1,
                                );
                            }
                            return Err(e);
                        }
                    },
                    Delimiter::Begin(_) => {
                        proof {
                            assert(begin_tag()[5] == 66);
                            assert(end_tag()[5] == 69);
                            assert(!is_end_line(line@)) by {
                                if is_end_line(line@) {
                                    assert(line@.subrange(0, 11)[5] == line@[5]);
                                    assert(line@.subrange(0, 9)[5] == line@[5]);
                                }
                            }
                        }
                        let e = ParseError::MalformedObject;
                        proof {
                            assert(st_after == SpecState::Failed { err: e });
                            lemma_run_failed(
                                lsv.skip(i as int + 1),
                                e,
                                i as int + 2,
                                off as int + line@.len() + 1,
                            );
                        }
                        return Err(e);
                    },
                    Delimiter::Bad => {
                        let e = ParseError::MalformedObject;
                        proof {
                            assert(st_after == SpecState::Failed { err: e });
                            lemma_run_failed(
                                lsv.skip(i as int + 1),
                                e,
                                i as int + 2,
                                off as int + line@.len() + 1,
                            );
                        }
                        return Err(e);
                    },
                }
            } else {
                let k = scan_base64(line);
                proof {
                    lemma_first_non_base64(line@);
                }
                if k == line.len() {
                    let ghost data_before = cap_data@;
                    let mut q: usize = 0;
                    while q < line.len()
                        invariant
                            0 <= q <= line@.len(),
                            cap_data@ == data_before + line@.take(q as int),
                        decreases line@.len() - q,
                    {
                        cap_data.push(line[q]);
                        proof {
                            assert(cap_data@ =~= data_before + line@.take(q + 1));
                        }
                        q = q + 1;
                    }
                    cap_data.push(LF);
                    proof {
                        assert(line@.take(line@.len() as int) =~= line@);
                        assert(cap_data@ =~= data_before + line@ + seq![LF]);
                        assert(st_after =~~= SpecState::Capture {
                            items: items_view(items@),
                            cur: cur->Some_0@,
                            kw: cap_kw@,
                            data: cap_data@,
                        });
                    }
                } else {
                    let e = ParseError::InvalidCharacter { offset: off + k };
                    proof {
                        assert(st_after == SpecState::Failed { err: e });
                        lemma_run_failed(
                            lsv.skip(i as int + 1),
                            e,
                            i as int + 2,
                            off as int + line@.len() + 1,
                        );
                    }
                    return Err(e);
                }
            }
        }
        off = off + line.len() + 1;
        i = i + 1;
    }
    proof {
        assert(lsv.skip(n as int) =~~= Seq::<Seq<u8>>::empty());
    }
    if capturing {
        return Err(ParseError::UnterminatedObject);
    }
    let ghost pre_items = items_view(items@);
    let ghost pre_cur = opt_item_view(cur);
    proof {
        assert(target == SpecState::Ready { items: pre_items, cur: pre_cur });
    }
    if let Some(c) = cur {
        items.push(c);
        proof {
            assert(items_view(items@) =~~= push_cur(pre_items, pre_cur));
        }
    }
    proof {
        assert(spec_finish(target) == Ok::<Seq<ItemModel>, ParseError>(items_view(items@)));
    }
    Ok(Document { items })
}

/// A `directory-signature` keyword line: the keyword alone or followed by
/// its single space.
pub open spec fn is_signature_line(l: Seq<u8>) -> bool {
    &&& l.len() >= 19
    &&& l.subrange(0, 19) == crate::schema::kwb("directory-signature")
    &&& (l.len() == 19 || l[19] == SP)
}

/// Index of the first `directory-signature` line (the line count when there
/// is none).
pub open spec fn first_signature_line(ls: Seq<Seq<u8>>) -> int
    decreases ls.len(),
{
    if ls.len() == 0 {
        0
    } else if is_signature_line(ls[0]) {
        0
    } else {
        1 + first_signature_line(ls.drop_first())
    }
}

/// The byte range a directory signature covers: from the start of the
/// document up through the single space after the first
/// `directory-signature` keyword (through the keyword itself when the line
/// is bare).
pub open spec fn spec_signed_range(input: Seq<u8>) -> Option<int> {
    let ls = spec_split_lines(input);
    let i = first_signature_line(ls);
    if i < ls.len() {
        Some(
            unlines(ls.take(i)).len() + 19 + if ls[i].len() > 19 {
                1int
            } else {
                0int
            },
        )
    } else {
        None
    }
}

/// Tests [`is_signature_line`].
#[verifier::loop_isolation(false)]
fn signature_line(l: &Vec<u8>) -> (r: bool)
    ensures
        r == is_signature_line(l@),
{
    let tag = "directory-signature".as_bytes();
    proof {
        reveal_strlit("directory-signature");
        vstd::string::is_ascii_spec_bytes("directory-signature");
        assert(tag@ == crate::schema::kwb("directory-signature"));
        assert(tag@.len() == 19);
    }
    if l.len() < 19 {
        return false;
    }
    let mut i: usize = 0;
    while i < 19
        invariant
            0 <= i <= 19,
            l@.len() >= 19,
            tag@ == crate::schema::kwb("directory-signature"),
            tag@.len() == 19,
            forall|j: int| 0 <= j < i ==> l@[j] == tag@[j],
        decreases 19 - i,
    {
        if l[i] != tag[i] {
            proof {
                assert(l@.subrange(0, 19)[i as int] == l@[i as int]);
            }
            return false;
        }
        i = i + 1;
    }
    proof {
        assert(l@.subrange(0, 19) =~= tag@);
    }
    l.len() == 19 || l[19] == SP
}

/// Locates the exact byte range an external signer hashes: the document up
/// through the single space after the first `directory-signature` keyword.
/// The library only locates the range; it does not hash or verify.
#[verifier::loop_isolation(false)]
pub fn signed_range(input: &[u8]) -> (r: Option<usize>)
    requires
        input@.len() > 0,
        input@[input@.len() - 1] == LF,
    ensures
        match r {
            Some(off) => spec_signed_range(input@) == Some(off as int),
            None => spec_signed_range(input@) is None,
        },
{
    let total = input.len();
    let lines = split_lines(input);
    let ghost lsv = spec_split_lines(input@);
    proof {
        lemma_unlines_split(input@);
        assert(lsv.skip(0) =~~= lsv);
        assert(lsv.take(0) =~~= Seq::<Seq<u8>>::empty());
    }
    let n = lines.len();
    let mut off: usize = 0;
    let mut i: usize = 0;
    while i < n
        invariant
            0 <= i <= n,
            total == input@.len(),
            off + unlines(lsv.skip(i as int)).len() == input@.len(),
            off == unlines(lsv.take(i as int)).len(),
            first_signature_line(lsv) == i + first_signature_line(lsv.skip(i as int)),
        decreases n - i,
    {
        let line = &lines[i];
        proof {
            assert(lsv.skip(i as int)[0] == lsv[i as int]);
            assert(lsv[i as int] == line@);
            assert(lsv.skip(i as int).drop_first() =~~= lsv.skip(i as int + 1));
        }
        if signature_line(line) {
            proof {
                assert(unlines(lsv.skip(i as int)).len() == line@.len() + 1 + unlines(
                    lsv.skip(i as int + 1),
                ).len());
            }
            if line.len() > 19 {
                return Some(off + 20);
            }
            return Some(off + 19);
        }
        proof {
            assert(lsv.take(i as int + 1) =~~= lsv.take(i as int).push(lsv[i as int]));
            assert(lsv.take(i as int).push(lsv[i as int]) =~~= lsv.take(i as int) + seq![
                lsv[i as int],
            ]);
            crate::codec::lemma_unlines_concat(lsv.take(i as int), seq![lsv[i as int]]);
            assert(unlines(seq![lsv[i as int]]) =~= lsv[i as int] + seq![LF]) by {
                assert(seq![lsv[i as int]].len() == 1);
                assert(seq![lsv[i as int]][0] == lsv[i as int]);
                assert(seq![lsv[i as int]].drop_first() =~~= Seq::<Seq<u8>>::empty());
                assert(unlines(seq![lsv[i as int]].drop_first()) =~= Seq::<u8>::empty());
            }
        }
        off = off + line.len() + 1;
        i = i + 1;
    }
    proof {
        assert(lsv.skip(n as int) =~~= Seq::<Seq<u8>>::empty());
    }
    None
}

} // verus!


