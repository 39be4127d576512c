//! Canonical byte form of a document, and the round-trip theorem: parsing
//! what a document serializes to yields the document again.

use vstd::prelude::*;

use crate::document::{
    objects_view, wf_item, wf_items, wf_keyword, wf_keyword_line, wf_object, wf_object_data,
    Document, Item, ItemModel, KeywordLineModel, Object, ObjectModel, DASH, LF, SP,
};
use crate::errors::ParseError;
use crate::grammar::{
    begin_keyword, begin_tag, dashes, end_keyword, end_tag, is_begin_line, is_end_line,
    lemma_run_failed, lemma_unlines_split, push_cur, spec_finish, spec_parse, spec_run,
    spec_split_lines, spec_step, unlines, SpecState,
};

verus! {

/// The canonical line for a keyword line: keyword, one space, arguments.
pub open spec fn keyword_line_bytes(m: KeywordLineModel) -> Seq<u8> {
    match m.arguments {
        None => m.keyword,
        Some(a) => m.keyword + seq![SP] + a,
    }
}

/// `"-----BEGIN " keyword "-----"`.
pub open spec fn begin_line_of(kw: Seq<u8>) -> Seq<u8> {
    begin_tag() + kw + dashes()
}

/// `"-----END " keyword "-----"`.
pub open spec fn end_line_of(kw: Seq<u8>) -> Seq<u8> {
    end_tag() + kw + dashes()
}

/// The lines of one object block: BEGIN, the payload lines, END.
pub open spec fn object_lines(o: ObjectModel) -> Seq<Seq<u8>> {
    seq![begin_line_of(o.keyword)] + spec_split_lines(o.data) + seq![end_line_of(o.keyword)]
}

/// The lines of a run of object blocks.
pub open spec fn objects_lines(os: Seq<ObjectModel>) -> Seq<Seq<u8>>
    decreases os.len(),
{
    if os.len() == 0 {
        Seq::empty()
    } else {
        object_lines(os[0]) + objects_lines(os.drop_first())
    }
}

/// The lines of one item: its keyword line, then its object blocks.
pub open spec fn item_lines(it: ItemModel) -> Seq<Seq<u8>> {
    seq![keyword_line_bytes(it.line)] + objects_lines(it.objects)
}

/// The lines of a whole document.
pub open spec fn doc_lines(items: Seq<ItemModel>) -> Seq<Seq<u8>>
    decreases items.len(),
{
    if items.len() == 0 {
        Seq::empty()
    } else {
        item_lines(items[0]) + doc_lines(items.drop_first())
    }
}

/// The canonical byte form of a document: each line newline-terminated.
pub open spec fn serialize_items(items: Seq<ItemModel>) -> Seq<u8> {
    unlines(doc_lines(items))
}

/// `unlines` distributes over concatenation.
pub proof fn lemma_unlines_concat(a: Seq<Seq<u8>>, b: Seq<Seq<u8>>)
    ensures
        unlines(a + b) == unlines(a) + unlines(b),
    decreases a.len(),
{
    if a.len() == 0 {
        assert(a + b =~~= b);
        assert(unlines(a) + unlines(b) =~= unlines(b));
    } else {
        lemma_unlines_concat(a.drop_first(), b);
        assert((a + b).drop_first() =~~= a.drop_first() + b);
        assert((a + b)[0] == a[0]);
        assert(unlines(a + b) == a[0] + seq![LF] + (unlines(a.drop_first()) + unlines(b)));
        assert(unlines(a + b) =~= unlines(a) + unlines(b));
    }
}

/// Running the machine over concatenated line runs composes.
pub proof fn lemma_run_concat(a: Seq<Seq<u8>>, b: Seq<Seq<u8>>, st: SpecState, n: int, o: int)
    ensures
        spec_run(a + b, st, n, o) == spec_run(
            b,
            spec_run(a, st, n, o),
            n + a.len(),
            o + unlines(a).len(),
        ),
    decreases a.len(),
{
    if a.len() == 0 {
        assert(a + b =~~= b);
        assert(unlines(a).len() == 0);
    } else {
        let st1 = spec_step(st, a[0], n, o);
        lemma_run_concat(a.drop_first(), b, st1, n + 1, o + a[0].len() + 1);
        assert((a + b).drop_first() =~~= a.drop_first() + b);
        assert((a + b)[0] == a[0]);
        assert(unlines(a).len() == a[0].len() + 1 + unlines(a.drop_first()).len());
    }
}

/// Every payload line of a well-formed object payload is pure base64.
pub proof fn lemma_data_lines_base64(d: Seq<u8>)
    requires
        wf_object_data(d),
    ensures
        forall|i: int|
            0 <= i < spec_split_lines(d).len() ==> crate::grammar::first_non_base64(
                #[trigger] spec_split_lines(d)[i],
            ) == spec_split_lines(d)[i].len(),
    decreases d.len(),
{
    if d.len() == 0 {
    } else {
        assert(forall|j: int| 0 <= j < d.drop_first().len() ==> d.drop_first()[j] == d[j + 1]);
        assert(wf_object_data(d.drop_first()));
        lemma_data_lines_base64(d.drop_first());
        let rest = spec_split_lines(d.drop_first());
        if d[0] == LF {
            assert(spec_split_lines(d) =~~= seq![Seq::<u8>::empty()] + rest);
            assert forall|i: int| 0 <= i < spec_split_lines(d).len() implies
                crate::grammar::first_non_base64(#[trigger] spec_split_lines(d)[i])
                == spec_split_lines(d)[i].len() by {
                if i > 0 {
                    assert(spec_split_lines(d)[i] == rest[i - 1]);
                }
            }
        } else {
            assert(is_base64_byte_local(d[0]));
            assert(rest.len() > 0) by {
                assert(d.len() >= 2);
                assert(d.drop_first().len() > 0);
            }
            let merged = seq![seq![d[0]] + rest[0]] + rest.drop_first();
            assert(spec_split_lines(d) == merged);
            lemma_b64_prepend(d[0], rest[0]);
            assert forall|i: int| 0 <= i < merged.len() implies crate::grammar::first_non_base64(
                #[trigger] merged[i],
            ) == merged[i].len() by {
                if i == 0 {
                    assert(merged[0] == seq![d[0]] + rest[0]);
                } else {
                    assert(merged[i] == rest[i]);
                }
            }
        }
    }
}

/// Short name for the base64 alphabet inside this module's proofs.
pub open spec fn is_base64_byte_local(b: u8) -> bool {
    crate::document::is_base64_byte(b)
}

/// A base64 byte prepended to an all-base64 line stays all base64.
pub proof fn lemma_b64_prepend(b: u8, l: Seq<u8>)
    requires
        is_base64_byte_local(b),
        crate::grammar::first_non_base64(l) == l.len(),
    ensures
        crate::grammar::first_non_base64(seq![b] + l) == (seq![b] + l).len(),
{
    let s = seq![b] + l;
    assert(s[0] == b);
    assert(s.drop_first() =~= l);
}

/// A non-empty well-formed payload splits into at least... (helper facts for
/// object capture: running the machine over the payload lines accumulates
/// exactly the payload again).
pub proof fn lemma_run_capture_data(
    ls: Seq<Seq<u8>>,
    items: Seq<ItemModel>,
    cur: ItemModel,
    kw: Seq<u8>,
    data: Seq<u8>,
    n: int,
    o: int,
)
    requires
        forall|i: int|
            0 <= i < ls.len() ==> crate::grammar::first_non_base64(#[trigger] ls[i]) == ls[i].len(),
        forall|i: int| 0 <= i < ls.len() ==> ls[i].len() == 0 || ls[i][0] != DASH,
    ensures
        spec_run(ls, (SpecState::Capture { items, cur, kw, data }), n, o) == (SpecState::Capture {
            items,
            cur,
            kw,
            data: data + unlines(ls),
        }),
    decreases ls.len(),
{
    if ls.len() == 0 {
        assert(data + unlines(ls) =~= data);
    } else {
        let l = ls[0];
        let st1 = spec_step((SpecState::Capture { items, cur, kw, data }), l, n, o);
        assert(st1 == (SpecState::Capture { items, cur, kw, data: data + l + seq![LF] }));
        lemma_run_capture_data(ls.drop_first(), items, cur, kw, data + l + seq![LF], n + 1, o
            + l.len() + 1);
        assert(data + l + seq![LF] + unlines(ls.drop_first()) =~= data + unlines(ls));
    }
}

/// The BEGIN line a keyword serializes to is recognized as exactly that
/// BEGIN line.
pub proof fn lemma_begin_line_shape(kw: Seq<u8>)
    requires
        wf_keyword(kw),
    ensures
        is_begin_line(begin_line_of(kw)),
        begin_keyword(begin_line_of(kw)) == kw,
        begin_line_of(kw)[0] == DASH,
        begin_line_of(kw).len() >= 17,
{
    let l = begin_line_of(kw);
    assert(l.len() == 11 + kw.len() + 5);
    assert(l.subrange(0, 11) =~= begin_tag());
    assert(l.subrange(l.len() - 5, l.len() as int) =~= dashes());
    assert(l.subrange(11, l.len() - 5) =~= kw);
    assert(l[0] == begin_tag()[0]);
}

/// The END line a keyword serializes to is recognized as exactly that END
/// line, and is not a BEGIN line.
pub proof fn lemma_end_line_shape(kw: Seq<u8>)
    requires
        wf_keyword(kw),
    ensures
        is_end_line(end_line_of(kw)),
        end_keyword(end_line_of(kw)) == kw,
        end_line_of(kw)[0] == DASH,
        end_line_of(kw).len() > 0,
{
    let l = end_line_of(kw);
    assert(l.len() == 9 + kw.len() + 5);
    assert(l.subrange(0, 9) =~= end_tag());
    assert(l.subrange(l.len() - 5, l.len() as int) =~= dashes());
    assert(l.subrange(9, l.len() - 5) =~= kw);
    assert(l[0] == end_tag()[0]);
}

/// Running the machine over one serialized object block, from a state with
/// an open item, attaches exactly that object to the item.
pub proof fn lemma_run_object(
    o: ObjectModel,
    items: Seq<ItemModel>,
    cur: ItemModel,
    n: int,
    off: int,
)
    requires
        wf_object(o),
    ensures
        spec_run(object_lines(o), (SpecState::Ready { items, cur: Some(cur) }), n, off)
            == (SpecState::Ready {
            items,
            cur: Some(ItemModel { line: cur.line, objects: cur.objects.push(o) }),
        }),
{
    let bl = begin_line_of(o.keyword);
    let el = end_line_of(o.keyword);
    let dls = spec_split_lines(o.data);
    lemma_begin_line_shape(o.keyword);
    lemma_end_line_shape(o.keyword);
    let st0 = SpecState::Ready { items, cur: Some(cur) };
    let st1 = spec_step(st0, bl, n, off);
    assert(st1 == (SpecState::Capture { items, cur, kw: o.keyword, data: Seq::<u8>::empty() }));
    assert(object_lines(o).drop_first() =~~= dls + seq![el]);
    lemma_data_lines_base64(o.data);
    assert forall|i: int| 0 <= i < dls.len() implies (#[trigger] dls[i]).len() == 0 || dls[i][0]
        != DASH by {
        if dls[i].len() > 0 {
            assert(crate::grammar::first_non_base64(dls[i]) == dls[i].len());
            assert(is_base64_byte_local(dls[i][0]));
        }
    }
    lemma_run_concat(dls, seq![el], st1, n + 1, off + bl.len() + 1);
    lemma_run_capture_data(
        dls,
        items,
        cur,
        o.keyword,
        Seq::<u8>::empty(),
        n + 1,
        off + bl.len() + 1,
    );
    let st2 = SpecState::Capture { items, cur, kw: o.keyword, data: unlines(dls) };
    assert(Seq::<u8>::empty() + unlines(dls) =~= unlines(dls));
    if o.data.len() == 0 {
        assert(unlines(dls) =~= o.data);
    } else {
        lemma_unlines_split(o.data);
        assert(unlines(dls) == o.data);
    }
    let st3 = spec_step(st2, el, n + 1 + dls.len(), off + bl.len() + 1 + unlines(dls).len());
    assert(st3 == (SpecState::Ready {
        items,
        cur: Some(ItemModel { line: cur.line, objects: cur.objects.push(o) }),
    }));
    assert(spec_run(object_lines(o), st0, n, off) == spec_run(
        dls + seq![el],
        st1,
        n + 1,
        off + bl.len() + 1,
    ));
    assert(spec_run(seq![el], st2, n + 1 + dls.len(), off + bl.len() + 1 + unlines(dls).len())
        == st3) by {
        let nn = n + 1 + dls.len();
        let oo = off + bl.len() + 1 + unlines(dls).len();
        assert(seq![el].len() == 1);
        assert(seq![el][0] == el);
        assert(seq![el].drop_first() =~~= Seq::<Seq<u8>>::empty());
        assert(spec_step(st2, el, nn, oo) == st3);
        assert(spec_run(seq![el], st2, nn, oo) == spec_run(
            seq![el].drop_first(),
            spec_step(st2, seq![el][0], nn, oo),
            nn + 1,
            oo + el.len() + 1,
        ));
        assert(spec_run(Seq::<Seq<u8>>::empty(), st3, nn + 1, oo + el.len() + 1) == st3);
    }
}

/// Running the machine over the serialized object blocks attaches exactly
/// those objects, in order.
pub proof fn lemma_run_objects(
    os: Seq<ObjectModel>,
    items: Seq<ItemModel>,
    cur: ItemModel,
    n: int,
    off: int,
)
    requires
        forall|i: int| 0 <= i < os.len() ==> wf_object(#[trigger] os[i]),
    ensures
        spec_run(objects_lines(os), (SpecState::Ready { items, cur: Some(cur) }), n, off)
            == (SpecState::Ready {
            items,
            cur: Some(ItemModel { line: cur.line, objects: cur.objects + os }),
        }),
    decreases os.len(),
{
    if os.len() == 0 {
        assert(cur.objects + os =~= cur.objects);
        assert(ItemModel { line: cur.line, objects: cur.objects + os } =~~= cur);
    } else {
        lemma_run_object(os[0], items, cur, n, off);
        let cur1 = ItemModel { line: cur.line, objects: cur.objects.push(os[0]) };
        lemma_run_concat(
            object_lines(os[0]),
            objects_lines(os.drop_first()),
            SpecState::Ready { items, cur: Some(cur) },
            n,
            off,
        );
        lemma_run_objects(
            os.drop_first(),
            items,
            cur1,
            n + object_lines(os[0]).len(),
            off + unlines(object_lines(os[0])).len(),
        );
        assert(cur.objects.push(os[0]) + os.drop_first() =~= cur.objects + os);
    }
}

/// A serialized keyword line steps the machine to an open item with exactly
/// that keyword line and no objects yet.
pub proof fn lemma_step_keyword_line(
    m: KeywordLineModel,
    items: Seq<ItemModel>,
    cur: Option<ItemModel>,
    n: int,
    off: int,
)
    requires
        wf_keyword_line(m),
    ensures
        spec_step((SpecState::Ready { items, cur }), keyword_line_bytes(m), n, off)
            == (SpecState::Ready {
            items: push_cur(items, cur),
            cur: Some(ItemModel { line: m, objects: Seq::empty() }),
        }),
{
    let l = keyword_line_bytes(m);
    match m.arguments {
        None => {
            assert(l == m.keyword);
            lemma_kw_prefix_all(l);
            assert(crate::grammar::keyword_prefix_len(l) == l.len());
        },
        Some(a) => {
            let j = m.keyword.len() as int;
            assert(l.len() == j + 1 + a.len());
            lemma_kw_prefix_stops(m.keyword, seq![SP] + a);
            assert(l =~= m.keyword + (seq![SP] + a));
            assert(crate::grammar::keyword_prefix_len(l) == j);
            assert(l[j] == SP);
            assert(l.subrange(j + 1, l.len() as int) =~= a);
            lemma_printable_all(a);
            assert(ItemModel {
                line: KeywordLineModel {
                    keyword: l.subrange(0, j),
                    arguments: Some(l.subrange(j + 1, l.len() as int)),
                },
                objects: Seq::<ObjectModel>::empty(),
            } =~~= ItemModel { line: m, objects: Seq::empty() }) by {
                assert(l.subrange(0, j) =~= m.keyword);
            }
        },
    }
}

/// A run of keyword bytes is its own keyword prefix.
pub proof fn lemma_kw_prefix_all(l: Seq<u8>)
    requires
        forall|i: int| 0 <= i < l.len() ==> crate::document::is_keyword_byte(l[i]),
    ensures
        crate::grammar::keyword_prefix_len(l) == l.len(),
    decreases l.len(),
{
    if l.len() > 0 {
        assert(forall|j: int|
            0 <= j < l.drop_first().len() ==> crate::document::is_keyword_byte(
                #[trigger] l.drop_first()[j],
            ));
        lemma_kw_prefix_all(l.drop_first());
    }
}

/// The keyword prefix of keyword bytes followed by a non-keyword byte stops
/// exactly at the boundary.
pub proof fn lemma_kw_prefix_stops(kw: Seq<u8>, rest: Seq<u8>)
    requires
        forall|i: int| 0 <= i < kw.len() ==> crate::document::is_keyword_byte(kw[i]),
        rest.len() > 0,
        !crate::document::is_keyword_byte(rest[0]),
    ensures
        crate::grammar::keyword_prefix_len(kw + rest) == kw.len(),
    decreases kw.len(),
{
    if kw.len() == 0 {
        assert(kw + rest =~= rest);
    } else {
        assert(forall|j: int|
            0 <= j < kw.drop_first().len() ==> crate::document::is_keyword_byte(
                #[trigger] kw.drop_first()[j],
            ));
        lemma_kw_prefix_stops(kw.drop_first(), rest);
        assert((kw + rest).drop_first() =~= kw.drop_first() + rest);
        assert((kw + rest)[0] == kw[0]);
    }
}

/// A run of printable bytes has no unprintable byte.
pub proof fn lemma_printable_all(l: Seq<u8>)
    requires
        forall|i: int| 0 <= i < l.len() ==> crate::document::is_printable_byte(l[i]),
    ensures
        crate::grammar::first_non_printable(l) == l.len(),
    decreases l.len(),
{
    if l.len() > 0 {
        assert(forall|j: int|
            0 <= j < l.drop_first().len() ==> crate::document::is_printable_byte(
                #[trigger] l.drop_first()[j],
            ));
        lemma_printable_all(l.drop_first());
    }
}

/// Running the machine over one serialized item leaves that item open, with
/// the previously open item closed.
pub proof fn lemma_run_item(
    it: ItemModel,
    items: Seq<ItemModel>,
    cur: Option<ItemModel>,
    n: int,
    off: int,
)
    requires
        wf_item(it),
    ensures
        spec_run(item_lines(it), (SpecState::Ready { items, cur }), n, off) == (SpecState::Ready {
            items: push_cur(items, cur),
            cur: Some(it),
        }),
{
    let kl = keyword_line_bytes(it.line);
    lemma_step_keyword_line(it.line, items, cur, n, off);
    let fresh = ItemModel { line: it.line, objects: Seq::empty() };
    assert(item_lines(it).drop_first() =~~= objects_lines(it.objects));
    assert(item_lines(it)[0] == kl);
    lemma_run_objects(it.objects, push_cur(items, cur), fresh, n + 1, off + kl.len() + 1);
    assert(Seq::<ObjectModel>::empty() + it.objects =~= it.objects);
    assert(ItemModel { line: fresh.line, objects: fresh.objects + it.objects } =~~= it);
}

/// Running the machine over a serialized document accumulates exactly its
/// items, the last one still open.
pub proof fn lemma_run_doc_lines(
    its: Seq<ItemModel>,
    items: Seq<ItemModel>,
    cur: Option<ItemModel>,
    n: int,
    off: int,
)
    requires
        wf_items(its),
        its.len() > 0,
    ensures
        spec_run(doc_lines(its), (SpecState::Ready { items, cur }), n, off) == (SpecState::Ready {
            items: push_cur(items, cur) + its.take(its.len() - 1),
            cur: Some(its.last()),
        }),
    decreases its.len(),
{
    lemma_run_item(its[0], items, cur, n, off);
    assert(wf_item(its[0]));
    lemma_run_concat(
        item_lines(its[0]),
        doc_lines(its.drop_first()),
        SpecState::Ready { items, cur },
        n,
        off,
    );
    if its.len() == 1 {
        assert(doc_lines(its.drop_first()) =~~= Seq::<Seq<u8>>::empty());
        assert(doc_lines(its) =~~= item_lines(its[0]) + doc_lines(its.drop_first()));
        assert(push_cur(items, cur) + its.take(0) =~= push_cur(items, cur));
    } else {
        assert(wf_items(its.drop_first())) by {
            assert(forall|i: int|
                0 <= i < its.drop_first().len() ==> #[trigger] its.drop_first()[i] == its[i + 1]);
        }
        lemma_run_doc_lines(
            its.drop_first(),
            push_cur(items, cur),
            Some(its[0]),
            n + item_lines(its[0]).len(),
            off + unlines(item_lines(its[0])).len(),
        );
        assert(push_cur(push_cur(items, cur), Some(its[0])) + its.drop_first().take(
            its.drop_first().len() - 1,
        ) =~= push_cur(items, cur) + its.take(its.len() - 1));
        assert(its.drop_first().last() == its.last());
    }
}

/// Parsing the canonical byte form of a non-empty run of well-formed items
/// yields exactly those items.
pub proof fn lemma_parse_serialize(items: Seq<ItemModel>)
    requires
        wf_items(items),
        items.len() > 0,
    ensures
        spec_parse(serialize_items(items)) == Ok::<Seq<ItemModel>, ParseError>(items),
{
    let ls = doc_lines(items);
    let bytes = serialize_items(items);
    lemma_run_doc_lines(items, Seq::empty(), None, 1, 0);
    lemma_doc_lines_lf_free(items);
    crate::grammar::lemma_split_unlines(ls);
    assert(spec_split_lines(bytes) == ls);
    assert(ls.len() > 0) by {
        assert(item_lines(items[0]).len() > 0);
    }
    assert(bytes.len() > 0 && bytes[bytes.len() - 1] == LF) by {
        lemma_unlines_last(ls);
    }
    assert(push_cur(Seq::<ItemModel>::empty(), None) + items.take(items.len() - 1) =~= items.take(
        items.len() - 1,
    ));
    assert(spec_run(ls, (SpecState::Ready { items: Seq::empty(), cur: None }), 1, 0)
        == (SpecState::Ready { items: items.take(items.len() - 1), cur: Some(items.last()) }));
    assert(push_cur(items.take(items.len() - 1), Some(items.last())) =~= items);
}

/// A non-empty run of lines joins to a newline-terminated byte string.
pub proof fn lemma_unlines_last(ls: Seq<Seq<u8>>)
    requires
        ls.len() > 0,
    ensures
        unlines(ls).len() > 0,
        unlines(ls)[unlines(ls).len() - 1] == LF,
    decreases ls.len(),
{
    if ls.len() == 1 {
        assert(unlines(ls.drop_first()).len() == 0);
    } else {
        lemma_unlines_last(ls.drop_first());
    }
}

/// No serialized line contains a newline.
pub proof fn lemma_doc_lines_lf_free(items: Seq<ItemModel>)
    requires
        wf_items(items),
    ensures
        crate::grammar::lines_lf_free(doc_lines(items)),
    decreases items.len(),
{
    if items.len() == 0 {
    } else {
        assert(wf_items(items.drop_first())) by {
            assert(forall|i: int|
                0 <= i < items.drop_first().len() ==> #[trigger] items.drop_first()[i] == items[i
                    + 1]);
        }
        lemma_doc_lines_lf_free(items.drop_first());
        lemma_item_lines_lf_free(items[0]);
        assert(wf_item(items[0]));
        let a = item_lines(items[0]);
        let b = doc_lines(items.drop_first());
        assert(doc_lines(items) == a + b);
        assert forall|i: int, j: int|
            0 <= i < (a + b).len() && 0 <= j < (a + b)[i].len() implies #[trigger] (a + b)[i][j]
            != LF by {
            if i < a.len() {
                assert((a + b)[i] == a[i]);
            } else {
                assert((a + b)[i] == b[i - a.len()]);
            }
        }
    }
}

/// No line of one serialized item contains a newline.
pub proof fn lemma_item_lines_lf_free(it: ItemModel)
    requires
        wf_item(it),
    ensures
        crate::grammar::lines_lf_free(item_lines(it)),
{
    let kl = keyword_line_bytes(it.line);
    assert(forall|j: int| 0 <= j < kl.len() ==> kl[j] != LF) by {
        match it.line.arguments {
            None => {},
            Some(a) => {
                assert(kl == it.line.keyword + seq![SP] + a);
            },
        }
    }
    lemma_objects_lines_lf_free(it.objects);
    let a = seq![kl];
    let b = objects_lines(it.objects);
    assert(item_lines(it) == a + b);
    assert forall|i: int, j: int|
        0 <= i < (a + b).len() && 0 <= j < (a + b)[i].len() implies #[trigger] (a + b)[i][j]
        != LF by {
        if i < 1 {
            assert((a + b)[i] == kl);
        } else {
            assert((a + b)[i] == b[i - 1]);
        }
    }
}

/// No line of a run of serialized object blocks contains a newline.
pub proof fn lemma_objects_lines_lf_free(os: Seq<ObjectModel>)
    requires
        forall|i: int| 0 <= i < os.len() ==> wf_object(#[trigger] os[i]),
    ensures
        crate::grammar::lines_lf_free(objects_lines(os)),
    decreases os.len(),
{
    if os.len() == 0 {
    } else {
        lemma_objects_lines_lf_free(os.drop_first());
        lemma_object_lines_lf_free(os[0]);
        let a = object_lines(os[0]);
        let b = objects_lines(os.drop_first());
        assert(objects_lines(os) == a + b);
        assert forall|i: int, j: int|
            0 <= i < (a + b).len() && 0 <= j < (a + b)[i].len() implies #[trigger] (a + b)[i][j]
            != LF by {
            if i < a.len() {
                assert((a + b)[i] == a[i]);
            } else {
                assert((a + b)[i] == b[i - a.len()]);
            }
        }
    }
}

/// No line of one serialized object block contains a newline.
pub proof fn lemma_object_lines_lf_free(o: ObjectModel)
    requires
        wf_object(o),
    ensures
        crate::grammar::lines_lf_free(object_lines(o)),
{
    let bl = begin_line_of(o.keyword);
    let el = end_line_of(o.keyword);
    let dls = spec_split_lines(o.data);
    lemma_data_lines_base64(o.data);
    assert(forall|j: int| 0 <= j < bl.len() ==> bl[j] != LF) by {
        assert(bl == begin_tag() + o.keyword + dashes());
    }
    assert(forall|j: int| 0 <= j < el.len() ==> el[j] != LF) by {
        assert(el == end_tag() + o.keyword + dashes());
    }
    assert forall|i: int, j: int|
        0 <= i < object_lines(o).len() && 0 <= j < object_lines(o)[i].len() implies #[trigger]
    object_lines(o)[i][j] != LF by {
        if i == 0 {
            assert(object_lines(o)[i] == bl);
        } else if i <= dls.len() {
            assert(object_lines(o)[i] == dls[i - 1]);
            assert(crate::grammar::first_non_base64(dls[i - 1]) == dls[i - 1].len());
            crate::grammar::lemma_first_non_base64(dls[i - 1]);
            assert(is_base64_byte_local(dls[i - 1][j]));
        } else {
            assert(object_lines(o)[i] == el);
        }
    }
}

/// Appends `src` to `out`.
fn append_bytes(out: &mut Vec<u8>, src: &Vec<u8>) -> (r: ())
    ensures
        final(out)@ == old(out)@ + src@,
{
    let ghost before = out@;
    let mut i: usize = 0;
    while i < src.len()
        invariant
            0 <= i <= src@.len(),
            out@ == before + src@.take(i as int),
        decreases src@.len() - i,
    {
        out.push(src[i]);
        proof {
            assert(out@ =~= before + src@.take(i + 1));
        }
        i = i + 1;
    }
    proof {
        assert(src@.take(src@.len() as int) =~= src@);
    }
}

/// One step of [`objects_lines`] over a growing prefix.
proof fn lemma_objects_lines_push(os: Seq<ObjectModel>, k: int)
    requires
        0 <= k < os.len(),
    ensures
        objects_lines(os.take(k + 1)) == objects_lines(os.take(k)) + object_lines(os[k]),
    decreases k,
{
    if k == 0 {
        assert(os.take(1)[0] == os[0]);
        assert(os.take(1).drop_first() =~~= os.take(0));
        assert(objects_lines(os.take(1)) =~~= objects_lines(os.take(0)) + object_lines(os[0]));
    } else {
        lemma_objects_lines_push(os.drop_first(), k - 1);
        assert(os.take(k + 1).drop_first() =~~= os.drop_first().take(k));
        assert(os.take(k).drop_first() =~~= os.drop_first().take(k - 1));
        assert(os.take(k + 1)[0] == os[0]);
        assert(os.take(k)[0] == os[0]);
        assert(os.drop_first()[k - 1] == os[k]);
        assert(objects_lines(os.take(k + 1)) =~~= objects_lines(os.take(k)) + object_lines(
            os[k],
        ));
    }
}

/// One step of [`doc_lines`] over a growing prefix.
proof fn lemma_doc_lines_push(its: Seq<ItemModel>, k: int)
    requires
        0 <= k < its.len(),
    ensures
        doc_lines(its.take(k + 1)) == doc_lines(its.take(k)) + item_lines(its[k]),
    decreases k,
{
    if k == 0 {
        assert(its.take(1)[0] == its[0]);
        assert(its.take(1).drop_first() =~~= its.take(0));
        assert(doc_lines(its.take(1)) =~~= doc_lines(its.take(0)) + item_lines(its[0]));
    } else {
        lemma_doc_lines_push(its.drop_first(), k - 1);
        assert(its.take(k + 1).drop_first() =~~= its.drop_first().take(k));
        assert(its.take(k).drop_first() =~~= its.drop_first().take(k - 1));
        assert(its.take(k + 1)[0] == its[0]);
        assert(its.take(k)[0] == its[0]);
        assert(its.drop_first()[k - 1] == its[k]);
        assert(doc_lines(its.take(k + 1)) =~~= doc_lines(its.take(k)) + item_lines(its[k]));
    }
}

/// The bytes of one serialized object block, written out.
proof fn lemma_object_bytes(o: ObjectModel)
    requires
        wf_object(o),
    ensures
        unlines(object_lines(o)) == begin_line_of(o.keyword) + seq![LF] + o.data + end_line_of(
            o.keyword,
        ) + seq![LF],
{
    let bl = begin_line_of(o.keyword);
    let el = end_line_of(o.keyword);
    let dls = spec_split_lines(o.data);
    lemma_unlines_concat(seq![bl], dls + seq![el]);
    lemma_unlines_concat(dls, seq![el]);
    assert(object_lines(o) =~~= seq![bl] + (dls + seq![el]));
    assert(unlines(seq![bl]) =~= bl + seq![LF]) by {
        assert(seq![bl].len() == 1);
        assert(seq![bl][0] == bl);
        assert(seq![bl].drop_first() =~~= Seq::<Seq<u8>>::empty());
        assert(unlines(seq![bl].drop_first()) =~= Seq::<u8>::empty());
    }
    assert(unlines(seq![el]) =~= el + seq![LF]) by {
        assert(seq![el].len() == 1);
        assert(seq![el][0] == el);
        assert(seq![el].drop_first() =~~= Seq::<Seq<u8>>::empty());
        assert(unlines(seq![el].drop_first()) =~= Seq::<u8>::empty());
    }
    if o.data.len() == 0 {
        assert(unlines(dls) =~= o.data);
    } else {
        lemma_unlines_split(o.data);
    }
    assert(unlines(object_lines(o)) =~= bl + seq![LF] + o.data + el + seq![LF]);
}

/// Writes one object block in canonical form.
fn serialize_object(o: &Object) -> (out: Vec<u8>)
    requires
        wf_object(o@),
    ensures
        out@ == unlines(object_lines(o@)),
{
    let mut out: Vec<u8> = Vec::new();
    // "-----BEGIN "
    out.push(DASH);
    out.push(DASH);
    out.push(DASH);
    out.push(DASH);
    out.push(DASH);
    out.push(66);
    out.push(69);
    out.push(71);
    out.push(73);
    out.push(78);
    out.push(SP);
    proof {
        assert(out@ =~= begin_tag());
    }
    append_bytes(&mut out, &o.keyword.bytes);
    out.push(DASH);
    out.push(DASH);
    out.push(DASH);
    out.push(DASH);
    out.push(DASH);
    out.push(LF);
    proof {
        assert(out@ =~= begin_line_of(o@.keyword) + seq![LF]);
    }
    append_bytes(&mut out, &o.data);
    let ghost mid = out@;
    // "-----END "
    out.push(DASH);
    out.push(DASH);
    out.push(DASH);
    out.push(DASH);
    out.push(DASH);
    out.push(69);
    out.push(78);
    out.push(68);
    out.push(SP);
    append_bytes(&mut out, &o.keyword.bytes);
    out.push(DASH);
    out.push(DASH);
    out.push(DASH);
    out.push(DASH);
    out.push(DASH);
    out.push(LF);
    proof {
        assert(out@ =~= mid + end_tag() + o@.keyword + dashes() + seq![LF]);
        lemma_object_bytes(o@);
        assert(out@ =~= unlines(object_lines(o@)));
    }
    out
}

/// Writes one item in canonical form: its keyword line, then its object
/// blocks.
fn serialize_item(it: &Item) -> (out: Vec<u8>)
    requires
        wf_item(it@),
    ensures
        out@ == unlines(item_lines(it@)),
{
    let mut out: Vec<u8> = Vec::new();
    append_bytes(&mut out, &it.keyword_line.keyword.bytes);
    match &it.keyword_line.arguments {
        Some(a) => {
            out.push(SP);
            append_bytes(&mut out, a);
        },
        None => {},
    }
    out.push(LF);
    proof {
        assert(out@ =~= keyword_line_bytes(it@.line) + seq![LF]);
    }
    let ghost head = out@;
    let mut k: usize = 0;
    proof {
        assert(objects_view(it.objects@).take(0) =~~= Seq::<ObjectModel>::empty());
        assert(out@ =~= head + unlines(objects_lines(it@.objects.take(0))));
    }
    while k < it.objects.len()
        invariant
            0 <= k <= it.objects@.len(),
            wf_item(it@),
            out@ == head + unlines(objects_lines(it@.objects.take(k as int))),
        decreases it.objects@.len() - k,
    {
        proof {
            assert(it@.objects[k as int] == it.objects@[k as int]@);
            assert(wf_object(it@.objects[k as int]));
        }
        let ob = serialize_object(&it.objects[k]);
        append_bytes(&mut out, &ob);
        proof {
            lemma_objects_lines_push(it@.objects, k as int);
            lemma_unlines_concat(
                objects_lines(it@.objects.take(k as int)),
                object_lines(it@.objects[k as int]),
            );
            assert(out@ =~= head + unlines(objects_lines(it@.objects.take(k as int + 1))));
        }
        k = k + 1;
    }
    proof {
        assert(it@.objects.take(it.objects@.len() as int) =~~= it@.objects);
        lemma_unlines_concat(seq![keyword_line_bytes(it@.line)], objects_lines(it@.objects));
        assert(item_lines(it@) =~~= seq![keyword_line_bytes(it@.line)] + objects_lines(
            it@.objects,
        ));
        assert(unlines(seq![keyword_line_bytes(it@.line)]) =~= keyword_line_bytes(it@.line)
            + seq![LF]) by {
            assert(seq![keyword_line_bytes(it@.line)].drop_first() =~~= Seq::<Seq<u8>>::empty());
        }
        assert(out@ =~= unlines(item_lines(it@)));
    }
    out
}

/// Writes a whole document in canonical byte form.
pub fn serialize_document(d: &Document) -> (out: Vec<u8>)
    requires
        wf_items(d@),
    ensures
        out@ == serialize_items(d@),
{
    let mut out: Vec<u8> = Vec::new();
    let mut i: usize = 0;
    proof {
        assert(d@.take(0) =~~= Seq::<ItemModel>::empty());
        assert(out@ =~= unlines(doc_lines(d@.take(0))));
    }
    while i < d.items.len()
        invariant
            0 <= i <= d.items@.len(),
            wf_items(d@),
            d@.len() == d.items@.len(),
            out@ == unlines(doc_lines(d@.take(i as int))),
        decreases d.items@.len() - i,
    {
        proof {
            assert(d@[i as int] == d.items@[i as int]@);
            assert(wf_item(d@[i as int]));
        }
        let ib = serialize_item(&d.items[i]);
        append_bytes(&mut out, &ib);
        proof {
            lemma_doc_lines_push(d@, i as int);
            lemma_unlines_concat(doc_lines(d@.take(i as int)), item_lines(d@[i as int]));
            assert(out@ =~= unlines(doc_lines(d@.take(i as int + 1))));
        }
        i = i + 1;
    }
    proof {
        assert(d@.take(d.items@.len() as int) =~~= d@);
    }
    out
}

/// The round trip: if some bytes parse to a document, the canonical bytes of
/// that document parse to the same document.
pub proof fn lemma_round_trip(bytes: Seq<u8>, items: Seq<ItemModel>)
    requires
        spec_parse(bytes) == Ok::<Seq<ItemModel>, ParseError>(items),
        wf_items(items),
        items.len() > 0,
    ensures
        spec_parse(serialize_items(items)) == spec_parse(bytes),
{
    lemma_parse_serialize(items);
}

} // verus!
