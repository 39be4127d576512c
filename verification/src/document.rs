//! The generic item layer shared by the whole family of directory-document
//! formats: a document is an ordered sequence of items, an item is one
//! keyword line plus the object blocks that immediately follow it.
//!
//! This layer is pure syntax: it has no notion of which keywords exist.
//! The mathematical model of each type is a ghost structure over byte
//! sequences, and every well-formedness rule of the grammar (keyword and
//! argument alphabets, object payload shape) is a spec predicate here.

use vstd::prelude::*;

verus! {

/// Line feed, the only line ending these formats accept.
pub const LF: u8 = 10;

/// The single space byte; SP in these formats is exactly one 0x20 byte.
pub const SP: u8 = 32;

/// The `-` byte, legal inside keywords and opening object delimiter lines.
pub const DASH: u8 = 45;

/// `KeywordChar ::= 'A' ... 'Z' | 'a' ... 'z' | '0' ... '9' | '-'`
pub open spec fn is_keyword_byte(b: u8) -> bool {
    (65 <= b && b <= 90) || (97 <= b && b <= 122) || (48 <= b && b <= 57) || b == DASH
}

/// `ArgumentChar ::= any printing ASCII character except NL` (0x20..=0x7e).
pub open spec fn is_printable_byte(b: u8) -> bool {
    32 <= b && b <= 126
}

/// The base64 alphabet plus `=` padding, as accepted inside object blocks.
pub open spec fn is_base64_byte(b: u8) -> bool {
    (65 <= b && b <= 90) || (97 <= b && b <= 122) || (48 <= b && b <= 57) || b == 43 || b == 47
        || b == 61
}

/// A keyword is a non-empty run of keyword characters.
pub open spec fn wf_keyword(s: Seq<u8>) -> bool {
    s.len() > 0 && (forall|i: int| 0 <= i < s.len() ==> is_keyword_byte(s[i]))
}

/// Arguments are a non-empty run of printable characters (they may contain
/// further spaces; splitting them is the schema layer's business).
pub open spec fn wf_arguments(s: Seq<u8>) -> bool {
    s.len() > 0 && (forall|i: int| 0 <= i < s.len() ==> is_printable_byte(s[i]))
}

/// Object payloads are kept verbatim as captured: the base64 lines joined
/// with the newline that terminated each, so a non-empty payload always ends
/// in a newline and contains only base64 bytes and newlines.
pub open spec fn wf_object_data(s: Seq<u8>) -> bool {
    &&& forall|i: int| 0 <= i < s.len() ==> (is_base64_byte(s[i]) || s[i] == LF)
    &&& s.len() > 0 ==> s[s.len() - 1] == LF
}

/// Model of a keyword line: the keyword bytes and the argument bytes, if any.
pub ghost struct KeywordLineModel {
    pub keyword: Seq<u8>,
    pub arguments: Option<Seq<u8>>,
}

/// Model of an object block: the delimiter keyword and the verbatim payload.
pub ghost struct ObjectModel {
    pub keyword: Seq<u8>,
    pub data: Seq<u8>,
}

/// Model of an item: one keyword line and its trailing object blocks.
pub ghost struct ItemModel {
    pub line: KeywordLineModel,
    pub objects: Seq<ObjectModel>,
}

/// A keyword line is well formed when its keyword is well formed and does not
/// begin with `-` (a leading dash marks an object delimiter line, so the
/// grammar reserves it), and its arguments, when present, are well formed.
pub open spec fn wf_keyword_line(m: KeywordLineModel) -> bool {
    &&& wf_keyword(m.keyword)
    &&& m.keyword[0] != DASH
    &&& match m.arguments {
        Some(a) => wf_arguments(a),
        None => true,
    }
}

pub open spec fn wf_object(m: ObjectModel) -> bool {
    wf_keyword(m.keyword) && wf_object_data(m.data)
}

pub open spec fn wf_item(m: ItemModel) -> bool {
    &&& wf_keyword_line(m.line)
    &&& forall|i: int| 0 <= i < m.objects.len() ==> wf_object(m.objects[i])
}

pub open spec fn wf_items(items: Seq<ItemModel>) -> bool {
    forall|i: int| 0 <= i < items.len() ==> wf_item(items[i])
}

/// `Keyword = KeywordChar+`
#[derive(Debug, Clone)]
pub struct Keyword {
    pub bytes: Vec<u8>,
}

impl View for Keyword {
    type V = Seq<u8>;

    open spec fn view(&self) -> Seq<u8> {
        self.bytes@
    }
}

/// Keyword characters, as characters.
pub open spec fn is_keyword_char(c: char) -> bool {
    ('A' <= c && c <= 'Z') || ('a' <= c && c <= 'z') || ('0' <= c && c <= '9') || c == '-'
}

impl Keyword {
    /// Builds a keyword from its characters.
    pub fn from_chars(characters: Vec<char>) -> (r: Self)
        requires
            characters@.len() > 0,
            forall|i: int| 0 <= i < characters@.len() ==> is_keyword_char(characters@[i]),
        ensures
            r@ == Seq::new(characters@.len(), |i: int| characters@[i] as u8),
            wf_keyword(r@),
    {
        let mut bytes: Vec<u8> = Vec::new();
        let mut i: usize = 0;
        while i < characters.len()
            invariant
                0 <= i <= characters@.len(),
                characters@.len() > 0,
                forall|j: int| 0 <= j < characters@.len() ==> is_keyword_char(characters@[j]),
                bytes@ == Seq::new(i as nat, |j: int| characters@[j] as u8),
                forall|j: int| 0 <= j < bytes@.len() ==> is_keyword_byte(bytes@[j]),
            decreases characters@.len() - i,
        {
            let c = characters[i];
            bytes.push(c as u8);
            i = i + 1;
            proof {
                assert(bytes@ =~= Seq::new(i as nat, |j: int| characters@[j] as u8));
            }
        }
        Keyword { bytes }
    }
}

/// `KeywordLine ::= Keyword NL | Keyword SP ArgumentChar+ NL`
#[derive(Debug, Clone)]
pub struct KeywordLine {
    pub keyword: Keyword,
    pub arguments: Option<Vec<u8>>,
}

impl View for KeywordLine {
    type V = KeywordLineModel;

    open spec fn view(&self) -> KeywordLineModel {
        KeywordLineModel {
            keyword: self.keyword@,
            arguments: match self.arguments {
                Some(a) => Some(a@),
                None => None,
            },
        }
    }
}

impl KeywordLine {
    /// Builds a keyword line from a keyword and optional argument characters.
    pub fn new(keyword: Keyword, arguments: Option<Vec<char>>) -> (r: Self)
        requires
            wf_keyword(keyword@),
            keyword@[0] != DASH,
            match arguments {
                Some(a) => a@.len() > 0 && forall|i: int|
                    0 <= i < a@.len() ==> ' ' <= #[trigger] a@[i] && a@[i] <= '~',
                None => true,
            },
        ensures
            r@.keyword == keyword@,
            match arguments {
                Some(a) => r@.arguments == Some(Seq::new(a@.len(), |i: int| a@[i] as u8)),
                None => r@.arguments is None,
            },
            wf_keyword_line(r@),
    {
        match arguments {
            None => KeywordLine { keyword, arguments: None },
            Some(chars) => {
                let mut bytes: Vec<u8> = Vec::new();
                let mut i: usize = 0;
                while i < chars.len()
                    invariant
                        0 <= i <= chars@.len(),
                        forall|j: int|
                            0 <= j < chars@.len() ==> ' ' <= #[trigger] chars@[j] && chars@[j]
                                <= '~',
                        bytes@ == Seq::new(i as nat, |j: int| chars@[j] as u8),
                        forall|j: int| 0 <= j < bytes@.len() ==> is_printable_byte(bytes@[j]),
                    decreases chars@.len() - i,
                {
                    let c = chars[i];
                    bytes.push(c as u8);
                    i = i + 1;
                    proof {
                        assert(bytes@ =~= Seq::new(i as nat, |j: int| chars@[j] as u8));
                    }
                }
                KeywordLine { keyword, arguments: Some(bytes) }
            },
        }
    }
}

/// `Object ::= BeginLine Base64-encoded-data EndLine`; the payload is kept
/// verbatim, each captured line with its terminating newline.
#[derive(Debug, Clone)]
pub struct Object {
    pub keyword: Keyword,
    pub data: Vec<u8>,
}

impl View for Object {
    type V = ObjectModel;

    open spec fn view(&self) -> ObjectModel {
        ObjectModel { keyword: self.keyword@, data: self.data@ }
    }
}

impl Object {
    /// Builds an object from its delimiter keyword and payload characters.
    pub fn new(keyword: Keyword, data: Vec<char>) -> (r: Self)
        requires
            wf_keyword(keyword@),
            wf_object_data(Seq::new(data@.len(), |i: int| data@[i] as u8)),
            forall|i: int| 0 <= i < data@.len() ==> (data@[i] as u32) < 128,
        ensures
            r@.keyword == keyword@,
            r@.data == Seq::new(data@.len(), |i: int| data@[i] as u8),
            wf_object(r@),
    {
        let mut bytes: Vec<u8> = Vec::new();
        let mut i: usize = 0;
        while i < data.len()
            invariant
                0 <= i <= data@.len(),
                forall|j: int| 0 <= j < data@.len() ==> (#[trigger] data@[j] as u32) < 128,
                bytes@ == Seq::new(i as nat, |j: int| data@[j] as u8),
            decreases data@.len() - i,
        {
            let c = data[i];
            bytes.push(c as u8);
            i = i + 1;
            proof {
                assert(bytes@ =~= Seq::new(i as nat, |j: int| data@[j] as u8));
            }
        }
        Object { keyword, data: bytes }
    }
}

/// Deep view of a vector of objects.
pub open spec fn objects_view(v: Seq<Object>) -> Seq<ObjectModel> {
    Seq::new(v.len(), |i: int| v[i]@)
}

/// `Item ::= KeywordLine Object*`
#[derive(Debug, Clone)]
pub struct Item {
    pub keyword_line: KeywordLine,
    pub objects: Vec<Object>,
}

impl View for Item {
    type V = ItemModel;

    open spec fn view(&self) -> ItemModel {
        ItemModel { line: self.keyword_line@, objects: objects_view(self.objects@) }
    }
}

impl Item {
    /// Builds an item from its keyword line and object blocks.
    pub fn new(keyword_line: KeywordLine, objects: Vec<Object>) -> (r: Self)
        ensures
            r@.line == keyword_line@,
            r@.objects == objects_view(objects@),
    {
        Item { keyword_line, objects }
    }
}

/// Deep view of a vector of items.
pub open spec fn items_view(v: Seq<Item>) -> Seq<ItemModel> {
    Seq::new(v.len(), |i: int| v[i]@)
}

/// The highest level syntactic entity: an ordered sequence of items.
#[derive(Debug, Clone)]
pub struct Document {
    pub items: Vec<Item>,
}

impl View for Document {
    type V = Seq<ItemModel>;

    open spec fn view(&self) -> Seq<ItemModel> {
        items_view(self.items@)
    }
}

/// Model of dropping the `None` placeholders that stand for blank lines.
pub open spec fn flatten_parsed(s: Seq<Option<Item>>) -> Seq<ItemModel>
    decreases s.len(),
{
    if s.len() == 0 {
        Seq::empty()
    } else {
        match s[0] {
            Some(it) => seq![it@] + flatten_parsed(s.drop_first()),
            None => flatten_parsed(s.drop_first()),
        }
    }
}

proof fn lemma_flatten_parsed_push(s: Seq<Option<Item>>, i: int)
    requires
        0 <= i < s.len(),
    ensures
        flatten_parsed(s.take(i + 1)) == match s[i] {
            Some(it) => flatten_parsed(s.take(i)) + seq![it@],
            None => flatten_parsed(s.take(i)),
        },
    decreases i,
{
    if i == 0 {
        assert(s.take(1).drop_first() =~= s.take(0));
        match s[0] {
            Some(it) => {
                assert(flatten_parsed(s.take(1)) =~= flatten_parsed(s.take(0)) + seq![it@]);
            },
            None => {},
        }
    } else {
        lemma_flatten_parsed_push(s.drop_first(), i - 1);
        assert(s.take(i + 1).drop_first() =~= s.drop_first().take(i));
        assert(s.take(i).drop_first() =~= s.drop_first().take(i - 1));
        match s[0] {
            Some(it0) => {
                assert(flatten_parsed(s.take(i + 1)) == seq![it0@] + flatten_parsed(
                    s.drop_first().take(i),
                ));
                match s[i] {
                    Some(it) => {
                        assert(flatten_parsed(s.take(i + 1)) =~= flatten_parsed(s.take(i))
                            + seq![it@]);
                    },
                    None => {},
                }
            },
            None => {
                match s[i] {
                    Some(it) => {
                        assert(flatten_parsed(s.take(i + 1)) =~= flatten_parsed(s.take(i))
                            + seq![it@]);
                    },
                    None => {},
                }
            },
        }
    }
}

impl Document {
    /// Builds a document from its items.
    pub fn new(items: Vec<Item>) -> (r: Self)
        ensures
            r@ == items_view(items@),
    {
        Document { items }
    }

    /// Builds a document from parsed elements where `None` stands for a
    /// blank line, which carries no data and is discarded.
    pub fn from_parsed_items(items: Vec<Option<Item>>) -> (r: Self)
        ensures
            r@ == flatten_parsed(items@),
    {
        let ghost orig = items@;
        let mut rest = items;
        let mut kept: Vec<Item> = Vec::new();
        let ghost mut i: int = 0;
        while rest.len() > 0
            invariant
                0 <= i <= orig.len(),
                rest@ == orig.skip(i),
                items_view(kept@) == flatten_parsed(orig.take(i)),
            decreases rest@.len(),
        {
            proof {
                lemma_flatten_parsed_push(orig, i);
                assert(orig.skip(i)[0] == orig[i]);
            }
            let element = rest.remove(0);
            match element {
                Some(it) => {
                    kept.push(it);
                    proof {
                        assert(items_view(kept@) =~= flatten_parsed(orig.take(i + 1)));
                    }
                },
                None => {
                    proof {
                        assert(items_view(kept@) =~= flatten_parsed(orig.take(i + 1)));
                    }
                },
            }
            proof {
                i = i + 1;
                assert(rest@ =~= orig.skip(i));
            }
        }
        proof {
            assert(orig.take(orig.len() as int) =~= orig);
        }
        Document { items: kept }
    }
}

} // verus!
