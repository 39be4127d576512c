//! Schema/assembler: walks the generic item sequence once, dispatches each
//! item by keyword, enforces cardinality, section order and
//! variant/method-conditional legality, and assembles the typed
//! [`ConsensusDocument`].
//!
//! The whole walk is modelled by [`spec_apply_item`] folded over the items
//! ([`spec_assemble`]); the executable assembler is proved to return exactly
//! what the model says.  Unrecognized keywords are ignored for forward
//! compatibility: a future document must not fail to parse because it
//! carries a new line.

use vstd::prelude::*;

use vstd::string::StringSliceAdditionalSpecFns;

use crate::decoders::{
    check_b64_token, check_hex_digest, parse_i32, parse_ipv4, parse_kv, parse_port_list,
    parse_timestamp, parse_u64, spec_parse_i32, spec_parse_ipv4, spec_parse_kv,
    spec_parse_port_list, spec_parse_timestamp, spec_parse_u64, spec_split_on, split_on,
    toks_view, valid_b64_token, valid_hex_digest, Ipv4, PortRange, Timestamp,
};
use crate::document::{Document, ItemModel, SP};
use crate::errors::{Field, ParseError};
use crate::model::{
    vec_view, Authority, AuthorityModel, ConsensusDocument, DirectorySignature, DocModel,
    IntParam, IntParamModel, Package, PackageModel, ProtoEntry, ProtoEntryModel, RawParam,
    RawParamModel, RouterModel, RouterStatusEntry, SharedRandValue, SharedRandValueModel,
    SignatureModel, UintParam, UintParamModel, Variant,
};

verus! {

/// The bytes of a keyword literal.
pub open spec fn kwb(s: &str) -> Seq<u8> {
    s.spec_bytes()
}

/// Compares an item's keyword with a keyword literal.
pub fn kw_eq(kw: &Vec<u8>, s: &str) -> (r: bool)
    ensures
        r == (kw@ == kwb(s)),
{
    let b = s.as_bytes();
    if kw.len() != b.len() {
        return false;
    }
    let mut i: usize = 0;
    while i < kw.len()
        invariant
            0 <= i <= kw@.len(),
            kw@.len() == b@.len(),
            b@ == kwb(s),
            forall|j: int| 0 <= j < i ==> kw@[j] == b@[j],
        decreases kw@.len() - i,
    {
        if kw[i] != b[i] {
            return false;
        }
        i = i + 1;
    }
    proof {
        assert(kw@ =~= b@);
    }
    true
}

/// A single decimal argument (`network-status-version`, `consensus-method`).
pub open spec fn spec_dec_u64_arg(a: Option<Seq<u8>>) -> Option<u64> {
    match a {
        Some(s) => spec_parse_u64(s),
        None => None,
    }
}

fn dec_u64_arg(a: &Option<Vec<u8>>) -> (r: Option<u64>)
    ensures
        r == spec_dec_u64_arg(crate::model::opt_bytes_view(*a)),
{
    match a {
        Some(s) => parse_u64(s),
        None => None,
    }
}

/// Space-separated decimal numbers (`consensus-methods`).
pub open spec fn spec_dec_u64_list(a: Option<Seq<u8>>) -> Option<Seq<u64>> {
    match a {
        Some(s) => {
            let toks = spec_split_on(s, SP);
            if forall|i: int| 0 <= i < toks.len() ==> spec_parse_u64(#[trigger] toks[i]) is Some {
                Some(Seq::new(toks.len(), |i: int| spec_parse_u64(toks[i])->Some_0))
            } else {
                None
            }
        },
        None => None,
    }
}

#[verifier::loop_isolation(false)]
fn dec_u64_list(a: &Option<Vec<u8>>) -> (r: Option<Vec<u64>>)
    ensures
        match r {
            Some(v) => spec_dec_u64_list(crate::model::opt_bytes_view(*a)) == Some(v@),
            None => spec_dec_u64_list(crate::model::opt_bytes_view(*a)) is None,
        },
{
    match a {
        Some(s) => {
            let toks = split_on(s, SP);
            let ghost tv = spec_split_on(s@, SP);
            let mut out: Vec<u64> = Vec::new();
            let mut i: usize = 0;
            while i < toks.len()
                invariant
                    0 <= i <= toks@.len(),
                    toks_view(toks@) == tv,
                    forall|j: int| 0 <= j < i ==> spec_parse_u64(#[trigger] tv[j]) is Some,
                    out@ == Seq::new(i as nat, |j: int| spec_parse_u64(tv[j])->Some_0),
                decreases toks@.len() - i,
            {
                proof {
                    assert(toks@[i as int]@ == tv[i as int]);
                }
                match parse_u64(&toks[i]) {
                    Some(v) => {
                        out.push(v);
                        proof {
                            assert(out@ =~= Seq::new(
                                i as nat + 1,
                                |j: int| spec_parse_u64(tv[j])->Some_0,
                            ));
                        }
                    },
                    None => {
                        proof {
                            assert(!(forall|j: int|
                                0 <= j < tv.len() ==> spec_parse_u64(#[trigger] tv[j]) is Some));
                        }
                        return None;
                    },
                }
                i = i + 1;
            }
            proof {
                assert(out@ =~= Seq::new(tv.len(), |j: int| spec_parse_u64(tv[j])->Some_0));
            }
            Some(out)
        },
        None => None,
    }
}

/// A timestamp argument: exactly a date token and a time token.
pub open spec fn spec_dec_timestamp(a: Option<Seq<u8>>) -> Option<Timestamp> {
    match a {
        Some(s) => {
            let toks = spec_split_on(s, SP);
            if toks.len() == 2 {
                spec_parse_timestamp(toks[0], toks[1])
            } else {
                None
            }
        },
        None => None,
    }
}

fn dec_timestamp(a: &Option<Vec<u8>>) -> (r: Option<Timestamp>)
    ensures
        r == spec_dec_timestamp(crate::model::opt_bytes_view(*a)),
{
    match a {
        Some(s) => {
            let toks = split_on(s, SP);
            if toks.len() != 2 {
                return None;
            }
            proof {
                assert(toks@[0]@ == spec_split_on(s@, SP)[0]);
                assert(toks@[1]@ == spec_split_on(s@, SP)[1]);
            }
            parse_timestamp(&toks[0], &toks[1])
        },
        None => None,
    }
}

/// Two decimal arguments (`voting-delay`).
pub open spec fn spec_dec_two_u64(a: Option<Seq<u8>>) -> Option<(u64, u64)> {
    match a {
        Some(s) => {
            let toks = spec_split_on(s, SP);
            if toks.len() == 2 {
                match (spec_parse_u64(toks[0]), spec_parse_u64(toks[1])) {
                    (Some(x), Some(y)) => Some((x, y)),
                    _ => None,
                }
            } else {
                None
            }
        },
        None => None,
    }
}

fn dec_two_u64(a: &Option<Vec<u8>>) -> (r: Option<(u64, u64)>)
    ensures
        r == spec_dec_two_u64(crate::model::opt_bytes_view(*a)),
{
    match a {
        Some(s) => {
            let toks = split_on(s, SP);
            if toks.len() != 2 {
                return None;
            }
            proof {
                assert(toks@[0]@ == spec_split_on(s@, SP)[0]);
                assert(toks@[1]@ == spec_split_on(s@, SP)[1]);
            }
            match (parse_u64(&toks[0]), parse_u64(&toks[1])) {
                (Some(x), Some(y)) => Some((x, y)),
                _ => None,
            }
        },
        None => None,
    }
}

/// Separator-split tokens, each non-empty (version lists, flag sets).
pub open spec fn spec_dec_tokens(a: Option<Seq<u8>>, sep: u8) -> Option<Seq<Seq<u8>>> {
    match a {
        Some(s) => {
            let toks = spec_split_on(s, sep);
            if forall|i: int| 0 <= i < toks.len() ==> (#[trigger] toks[i]).len() > 0 {
                Some(toks)
            } else {
                None
            }
        },
        None => Some(Seq::empty()),
    }
}

#[verifier::loop_isolation(false)]
fn dec_tokens(a: &Option<Vec<u8>>, sep: u8) -> (r: Option<Vec<Vec<u8>>>)
    ensures
        match r {
            Some(v) => spec_dec_tokens(crate::model::opt_bytes_view(*a), sep) == Some(
                vec_view(v@),
            ),
            None => spec_dec_tokens(crate::model::opt_bytes_view(*a), sep) is None,
        },
{
    match a {
        Some(s) => {
            let toks = split_on(s, sep);
            let ghost tv = spec_split_on(s@, sep);
            let mut i: usize = 0;
            while i < toks.len()
                invariant
                    0 <= i <= toks@.len(),
                    toks_view(toks@) == tv,
                    forall|j: int| 0 <= j < i ==> (#[trigger] tv[j]).len() > 0,
                decreases toks@.len() - i,
            {
                proof {
                    assert(toks@[i as int]@ == tv[i as int]);
                }
                if toks[i].len() == 0 {
                    proof {
                        assert(!(forall|j: int|
                            0 <= j < tv.len() ==> (#[trigger] tv[j]).len() > 0));
                    }
                    return None;
                }
                i = i + 1;
            }
            proof {
                assert(vec_view(toks@) =~~= tv);
            }
            Some(toks)
        },
        None => {
            let empty: Vec<Vec<u8>> = Vec::new();
            proof {
                assert(vec_view(empty@) =~~= Seq::<Seq<u8>>::empty());
            }
            Some(empty)
        },
    }
}

/// One `package` line: `name version url digest*`, each digest `type=value`.
pub open spec fn spec_dec_package(a: Option<Seq<u8>>) -> Option<PackageModel> {
    match a {
        Some(s) => {
            let toks = spec_split_on(s, SP);
            if toks.len() >= 3 && toks[0].len() > 0 && toks[1].len() > 0 && toks[2].len() > 0
                && (forall|i: int|
                3 <= i < toks.len() ==> spec_parse_kv(#[trigger] toks[i]) is Some) {
                Some(
                    PackageModel {
                        name: toks[0],
                        version: toks[1],
                        url: toks[2],
                        digests: Seq::new(
                            (toks.len() - 3) as nat,
                            |i: int|
                                RawParamModel {
                                    key: spec_parse_kv(toks[i + 3])->Some_0.0,
                                    value: spec_parse_kv(toks[i + 3])->Some_0.1,
                                },
                        ),
                    },
                )
            } else {
                None
            }
        },
        None => None,
    }
}

#[verifier::loop_isolation(false)]
fn dec_package(a: &Option<Vec<u8>>) -> (r: Option<Package>)
    ensures
        match r {
            Some(p) => spec_dec_package(crate::model::opt_bytes_view(*a)) == Some(p@),
            None => spec_dec_package(crate::model::opt_bytes_view(*a)) is None,
        },
{
    match a {
        Some(s) => {
            let mut toks = split_on(s, SP);
            let ghost tv = spec_split_on(s@, SP);
            if toks.len() < 3 {
                return None;
            }
            proof {
                assert(toks@[0]@ == tv[0]);
                assert(toks@[1]@ == tv[1]);
                assert(toks@[2]@ == tv[2]);
            }
            if toks[0].len() == 0 || toks[1].len() == 0 || toks[2].len() == 0 {
                return None;
            }
            let mut digests: Vec<RawParam> = Vec::new();
            let mut i: usize = 3;
            while i < toks.len()
                invariant
                    3 <= i <= toks@.len(),
                    toks_view(toks@) == tv,
                    forall|j: int| 3 <= j < i ==> spec_parse_kv(#[trigger] tv[j]) is Some,
                    digests@.len() == i - 3,
                    vec_view(digests@) =~~= Seq::new(
                        (i - 3) as nat,
                        |j: int|
                            RawParamModel {
                                key: spec_parse_kv(tv[j + 3])->Some_0.0,
                                value: spec_parse_kv(tv[j + 3])->Some_0.1,
                            },
                    ),
                decreases toks@.len() - i,
            {
                proof {
                    assert(toks@[i as int]@ == tv[i as int]);
                }
                match parse_kv(&toks[i]) {
                    Some(kv) => {
                        let ghost ov = digests@;
                        digests.push(RawParam { key: kv.0, value: kv.1 });
                        proof {
                            assert(digests@.last()@ == RawParamModel {
                                key: spec_parse_kv(tv[i as int])->Some_0.0,
                                value: spec_parse_kv(tv[i as int])->Some_0.1,
                            });
                            assert(vec_view(digests@) =~~= vec_view(ov).push(digests@.last()@));
                            assert(vec_view(digests@) =~~= Seq::new(
                                (i - 2) as nat,
                                |j: int|
                                    RawParamModel {
                                        key: spec_parse_kv(tv[j + 3])->Some_0.0,
                                        value: spec_parse_kv(tv[j + 3])->Some_0.1,
                                    },
                            ));
                        }
                    },
                    None => {
                        proof {
                            assert(!(forall|j: int|
                                3 <= j < tv.len() ==> spec_parse_kv(#[trigger] tv[j]) is Some));
                        }
                        return None;
                    },
                }
                i = i + 1;
            }
            let url = toks.remove(2);
            let version = toks.remove(1);
            let name = toks.remove(0);
            proof {
                assert(name@ == tv[0] && version@ == tv[1] && url@ == tv[2]);
            }
            let p = Package { name, version, url, digests };
            proof {
                assert(p@ =~~= spec_dec_package(crate::model::opt_bytes_view(*a))->Some_0);
            }
            Some(p)
        },
        None => None,
    }
}

/// Comma-separated `INT` or `INT-INT` version spans, low not above high.
pub open spec fn spec_dec_ranges(s: Seq<u8>) -> Option<Seq<(u64, u64)>> {
    let toks = spec_split_on(s, 44);
    if forall|i: int| 0 <= i < toks.len() ==> spec_dec_range(#[trigger] toks[i]) is Some {
        Some(Seq::new(toks.len(), |i: int| spec_dec_range(toks[i])->Some_0))
    } else {
        None
    }
}

pub open spec fn spec_dec_range(s: Seq<u8>) -> Option<(u64, u64)> {
    let parts = spec_split_on(s, crate::document::DASH);
    if parts.len() == 1 {
        match spec_parse_u64(parts[0]) {
            Some(v) => Some((v, v)),
            None => None,
        }
    } else if parts.len() == 2 {
        match (spec_parse_u64(parts[0]), spec_parse_u64(parts[1])) {
            (Some(lo), Some(hi)) => if lo <= hi {
                Some((lo, hi))
            } else {
                None
            },
            _ => None,
        }
    } else {
        None
    }
}

fn dec_range(s: &Vec<u8>) -> (r: Option<(u64, u64)>)
    ensures
        r == spec_dec_range(s@),
{
    let parts = split_on(s, crate::document::DASH);
    let ghost pv = spec_split_on(s@, crate::document::DASH);
    if parts.len() == 1 {
        proof {
            assert(parts@[0]@ == pv[0]);
        }
        match parse_u64(&parts[0]) {
            Some(v) => Some((v, v)),
            None => None,
        }
    } else if parts.len() == 2 {
        proof {
            assert(parts@[0]@ == pv[0]);
            assert(parts@[1]@ == pv[1]);
        }
        match (parse_u64(&parts[0]), parse_u64(&parts[1])) {
            (Some(lo), Some(hi)) => if lo <= hi {
                Some((lo, hi))
            } else {
                None
            },
            _ => None,
        }
    } else {
        None
    }
}

#[verifier::loop_isolation(false)]
fn dec_ranges(s: &Vec<u8>) -> (r: Option<Vec<(u64, u64)>>)
    ensures
        match r {
            Some(v) => spec_dec_ranges(s@) == Some(v@),
            None => spec_dec_ranges(s@) is None,
        },
{
    let toks = split_on(s, 44);
    let ghost tv = spec_split_on(s@, 44);
    let mut out: Vec<(u64, u64)> = Vec::new();
    let mut i: usize = 0;
    while i < toks.len()
        invariant
            0 <= i <= toks@.len(),
            toks_view(toks@) == tv,
            forall|j: int| 0 <= j < i ==> spec_dec_range(#[trigger] tv[j]) is Some,
            out@ == Seq::new(i as nat, |j: int| spec_dec_range(tv[j])->Some_0),
        decreases toks@.len() - i,
    {
        proof {
            assert(toks@[i as int]@ == tv[i as int]);
        }
        match dec_range(&toks[i]) {
            Some(p) => {
                out.push(p);
                proof {
                    assert(out@ =~= Seq::new(i as nat + 1, |j: int| spec_dec_range(tv[j])->Some_0));
                }
            },
            None => {
                proof {
                    assert(!(forall|j: int|
                        0 <= j < tv.len() ==> spec_dec_range(#[trigger] tv[j]) is Some));
                }
                return None;
            },
        }
        i = i + 1;
    }
    proof {
        assert(out@ =~= Seq::new(tv.len(), |j: int| spec_dec_range(tv[j])->Some_0));
    }
    Some(out)
}

/// Space-separated `Name=Ranges` protocol entries.
pub open spec fn spec_dec_proto_entry(s: Seq<u8>) -> Option<ProtoEntryModel> {
    match spec_parse_kv(s) {
        Some(kv) => match spec_dec_ranges(kv.1) {
            Some(rs) => Some(ProtoEntryModel { name: kv.0, ranges: rs }),
            None => None,
        },
        None => None,
    }
}

pub open spec fn spec_dec_protos(a: Option<Seq<u8>>) -> Option<Seq<ProtoEntryModel>> {
    match a {
        Some(s) => {
            let toks = spec_split_on(s, SP);
            if forall|i: int| 0 <= i < toks.len() ==> spec_dec_proto_entry(#[trigger] toks[i])
                is Some {
                Some(Seq::new(toks.len(), |i: int| spec_dec_proto_entry(toks[i])->Some_0))
            } else {
                None
            }
        },
        None => None,
    }
}

fn dec_proto_entry(s: &Vec<u8>) -> (r: Option<ProtoEntry>)
    ensures
        match r {
            Some(p) => spec_dec_proto_entry(s@) == Some(p@),
            None => spec_dec_proto_entry(s@) is None,
        },
{
    match parse_kv(s) {
        Some(kv) => match dec_ranges(&kv.1) {
            Some(rs) => {
                let p = ProtoEntry { name: kv.0, ranges: rs };
                proof {
                    assert(p@ =~~= spec_dec_proto_entry(s@)->Some_0);
                }
                Some(p)
            },
            None => None,
        },
        None => None,
    }
}

#[verifier::loop_isolation(false)]
fn dec_protos(a: &Option<Vec<u8>>) -> (r: Option<Vec<ProtoEntry>>)
    ensures
        match r {
            Some(v) => spec_dec_protos(crate::model::opt_bytes_view(*a)) == Some(vec_view(v@)),
            None => spec_dec_protos(crate::model::opt_bytes_view(*a)) is None,
        },
{
    match a {
        Some(s) => {
            let toks = split_on(s, SP);
            let ghost tv = spec_split_on(s@, SP);
            let mut out: Vec<ProtoEntry> = Vec::new();
            let mut i: usize = 0;
            while i < toks.len()
                invariant
                    0 <= i <= toks@.len(),
                    toks_view(toks@) == tv,
                    forall|j: int| 0 <= j < i ==> spec_dec_proto_entry(#[trigger] tv[j]) is Some,
                    vec_view(out@) =~~= Seq::new(
                        i as nat,
                        |j: int| spec_dec_proto_entry(tv[j])->Some_0,
                    ),
                decreases toks@.len() - i,
            {
                proof {
                    assert(toks@[i as int]@ == tv[i as int]);
                }
                match dec_proto_entry(&toks[i]) {
                    Some(p) => {
                        let ghost ov = out@;
                        out.push(p);
                        proof {
                            assert(out@.last()@ == spec_dec_proto_entry(tv[i as int])->Some_0);
                            assert(vec_view(out@) =~~= vec_view(ov).push(out@.last()@));
                            assert(vec_view(out@) =~~= Seq::new(
                                i as nat + 1,
                                |j: int| spec_dec_proto_entry(tv[j])->Some_0,
                            ));
                        }
                    },
                    None => {
                        proof {
                            assert(!(forall|j: int|
                                0 <= j < tv.len() ==> spec_dec_proto_entry(#[trigger] tv[j])
                                    is Some));
                        }
                        return None;
                    },
                }
                i = i + 1;
            }
            proof {
                assert(vec_view(out@) =~~= Seq::new(
                    tv.len(),
                    |j: int| spec_dec_proto_entry(tv[j])->Some_0,
                ));
            }
            Some(out)
        },
        None => None,
    }
}

/// Space-separated `key=value` pairs with signed 32-bit values (params,
/// bandwidth weights).  Unknown keys are retained: forward compatibility
/// forbids rejecting them.
pub open spec fn spec_dec_int_kv(s: Seq<u8>) -> Option<IntParamModel> {
    match spec_parse_kv(s) {
        Some(kv) => match spec_parse_i32(kv.1) {
            Some(v) => Some(IntParamModel { key: kv.0, value: v }),
            None => None,
        },
        None => None,
    }
}

pub open spec fn spec_dec_int_params(a: Option<Seq<u8>>) -> Option<Seq<IntParamModel>> {
    match a {
        Some(s) => {
            let toks = spec_split_on(s, SP);
            if forall|i: int| 0 <= i < toks.len() ==> spec_dec_int_kv(#[trigger] toks[i]) is Some {
                Some(Seq::new(toks.len(), |i: int| spec_dec_int_kv(toks[i])->Some_0))
            } else {
                None
            }
        },
        None => None,
    }
}

#[verifier::loop_isolation(false)]
fn dec_int_params(a: &Option<Vec<u8>>) -> (r: Option<Vec<IntParam>>)
    ensures
        match r {
            Some(v) => spec_dec_int_params(crate::model::opt_bytes_view(*a)) == Some(vec_view(v@)),
            None => spec_dec_int_params(crate::model::opt_bytes_view(*a)) is None,
        },
{
    match a {
        Some(s) => {
            let toks = split_on(s, SP);
            let ghost tv = spec_split_on(s@, SP);
            let mut out: Vec<IntParam> = Vec::new();
            let mut i: usize = 0;
            while i < toks.len()
                invariant
                    0 <= i <= toks@.len(),
                    toks_view(toks@) == tv,
                    forall|j: int| 0 <= j < i ==> spec_dec_int_kv(#[trigger] tv[j]) is Some,
                    vec_view(out@) =~~= Seq::new(i as nat, |j: int| spec_dec_int_kv(tv[j])->Some_0),
                decreases toks@.len() - i,
            {
                proof {
                    assert(toks@[i as int]@ == tv[i as int]);
                }
                let kv = parse_kv(&toks[i]);
                match kv {
                    Some(kv) => match parse_i32(&kv.1) {
                        Some(v) => {
                            let ghost ov = out@;
                            out.push(IntParam { key: kv.0, value: v });
                            proof {
                                assert(out@.last()@ == spec_dec_int_kv(tv[i as int])->Some_0);
                                assert(vec_view(out@) =~~= vec_view(ov).push(out@.last()@));
                                assert(vec_view(out@) =~~= Seq::new(
                                    i as nat + 1,
                                    |j: int| spec_dec_int_kv(tv[j])->Some_0,
                                ));
                            }
                        },
                        None => {
                            proof {
                                assert(spec_dec_int_kv(tv[i as int]) is None);
                                assert(!(forall|j: int|
                                    0 <= j < tv.len() ==> spec_dec_int_kv(#[trigger] tv[j])
                                        is Some));
                            }
                            return None;
                        },
                    },
                    None => {
                        proof {
                            assert(spec_dec_int_kv(tv[i as int]) is None);
                            assert(!(forall|j: int|
                                0 <= j < tv.len() ==> spec_dec_int_kv(#[trigger] tv[j]) is Some));
                        }
                        return None;
                    },
                }
                i = i + 1;
            }
            proof {
                assert(vec_view(out@) =~~= Seq::new(
                    tv.len(),
                    |j: int| spec_dec_int_kv(tv[j])->Some_0,
                ));
            }
            Some(out)
        },
        None => None,
    }
}

/// Space-separated `key=value` pairs whose values are kept as given
/// (flag thresholds).
pub open spec fn spec_dec_raw_kv(s: Seq<u8>) -> Option<RawParamModel> {
    match spec_parse_kv(s) {
        Some(kv) => Some(RawParamModel { key: kv.0, value: kv.1 }),
        None => None,
    }
}

pub open spec fn spec_dec_raw_params(a: Option<Seq<u8>>) -> Option<Seq<RawParamModel>> {
    match a {
        Some(s) => {
            let toks = spec_split_on(s, SP);
            if forall|i: int| 0 <= i < toks.len() ==> spec_dec_raw_kv(#[trigger] toks[i]) is Some {
                Some(Seq::new(toks.len(), |i: int| spec_dec_raw_kv(toks[i])->Some_0))
            } else {
                None
            }
        },
        None => None,
    }
}

#[verifier::loop_isolation(false)]
fn dec_raw_params(a: &Option<Vec<u8>>) -> (r: Option<Vec<RawParam>>)
    ensures
        match r {
            Some(v) => spec_dec_raw_params(crate::model::opt_bytes_view(*a)) == Some(vec_view(v@)),
            None => spec_dec_raw_params(crate::model::opt_bytes_view(*a)) is None,
        },
{
    match a {
        Some(s) => {
            let toks = split_on(s, SP);
            let ghost tv = spec_split_on(s@, SP);
            let mut out: Vec<RawParam> = Vec::new();
            let mut i: usize = 0;
            while i < toks.len()
                invariant
                    0 <= i <= toks@.len(),
                    toks_view(toks@) == tv,
                    forall|j: int| 0 <= j < i ==> spec_dec_raw_kv(#[trigger] tv[j]) is Some,
                    vec_view(out@) =~~= Seq::new(i as nat, |j: int| spec_dec_raw_kv(tv[j])->Some_0),
                decreases toks@.len() - i,
            {
                proof {
                    assert(toks@[i as int]@ == tv[i as int]);
                }
                match parse_kv(&toks[i]) {
                    Some(kv) => {
                        let ghost ov = out@;
                        out.push(RawParam { key: kv.0, value: kv.1 });
                        proof {
                            assert(out@.last()@ == spec_dec_raw_kv(tv[i as int])->Some_0);
                            assert(vec_view(out@) =~~= vec_view(ov).push(out@.last()@));
                            assert(vec_view(out@) =~~= Seq::new(
                                i as nat + 1,
                                |j: int| spec_dec_raw_kv(tv[j])->Some_0,
                            ));
                        }
                    },
                    None => {
                        proof {
                            assert(spec_dec_raw_kv(tv[i as int]) is None);
                            assert(!(forall|j: int|
                                0 <= j < tv.len() ==> spec_dec_raw_kv(#[trigger] tv[j]) is Some));
                        }
                        return None;
                    },
                }
                i = i + 1;
            }
            proof {
                assert(vec_view(out@) =~~= Seq::new(
                    tv.len(),
                    |j: int| spec_dec_raw_kv(tv[j])->Some_0,
                ));
            }
            Some(out)
        },
        None => None,
    }
}

/// Space-separated `key=value` pairs with unsigned values (`w` lines).
pub open spec fn spec_dec_uint_kv(s: Seq<u8>) -> Option<UintParamModel> {
    match spec_parse_kv(s) {
        Some(kv) => match spec_parse_u64(kv.1) {
            Some(v) => Some(UintParamModel { key: kv.0, value: v }),
            None => None,
        },
        None => None,
    }
}

pub open spec fn spec_dec_uint_params(a: Option<Seq<u8>>) -> Option<Seq<UintParamModel>> {
    match a {
        Some(s) => {
            let toks = spec_split_on(s, SP);
            if forall|i: int| 0 <= i < toks.len() ==> spec_dec_uint_kv(#[trigger] toks[i])
                is Some {
                Some(Seq::new(toks.len(), |i: int| spec_dec_uint_kv(toks[i])->Some_0))
            } else {
                None
            }
        },
        None => None,
    }
}

#[verifier::loop_isolation(false)]
fn dec_uint_params(a: &Option<Vec<u8>>) -> (r: Option<Vec<UintParam>>)
    ensures
        match r {
            Some(v) => spec_dec_uint_params(crate::model::opt_bytes_view(*a)) == Some(
                vec_view(v@),
            ),
            None => spec_dec_uint_params(crate::model::opt_bytes_view(*a)) is None,
        },
{
    match a {
        Some(s) => {
            let toks = split_on(s, SP);
            let ghost tv = spec_split_on(s@, SP);
            let mut out: Vec<UintParam> = Vec::new();
            let mut i: usize = 0;
            while i < toks.len()
                invariant
                    0 <= i <= toks@.len(),
                    toks_view(toks@) == tv,
                    forall|j: int| 0 <= j < i ==> spec_dec_uint_kv(#[trigger] tv[j]) is Some,
                    vec_view(out@) =~~= Seq::new(
                        i as nat,
                        |j: int| spec_dec_uint_kv(tv[j])->Some_0,
                    ),
                decreases toks@.len() - i,
            {
                proof {
                    assert(toks@[i as int]@ == tv[i as int]);
                }
                let kv = parse_kv(&toks[i]);
                match kv {
                    Some(kv) => match parse_u64(&kv.1) {
                        Some(v) => {
                            let ghost ov = out@;
                            out.push(UintParam { key: kv.0, value: v });
                            proof {
                                assert(out@.last()@ == spec_dec_uint_kv(tv[i as int])->Some_0);
                                assert(vec_view(out@) =~~= vec_view(ov).push(out@.last()@));
                                assert(vec_view(out@) =~~= Seq::new(
                                    i as nat + 1,
                                    |j: int| spec_dec_uint_kv(tv[j])->Some_0,
                                ));
                            }
                        },
                        None => {
                            proof {
                                assert(spec_dec_uint_kv(tv[i as int]) is None);
                                assert(!(forall|j: int|
                                    0 <= j < tv.len() ==> spec_dec_uint_kv(#[trigger] tv[j])
                                        is Some));
                            }
                            return None;
                        },
                    },
                    None => {
                        proof {
                            assert(spec_dec_uint_kv(tv[i as int]) is None);
                            assert(!(forall|j: int|
                                0 <= j < tv.len() ==> spec_dec_uint_kv(#[trigger] tv[j]) is Some));
                        }
                        return None;
                    },
                }
                i = i + 1;
            }
            proof {
                assert(vec_view(out@) =~~= Seq::new(
                    tv.len(),
                    |j: int| spec_dec_uint_kv(tv[j])->Some_0,
                ));
            }
            Some(out)
        },
        None => None,
    }
}

/// A base64 digest with trailing padding stripped: twenty-seven characters
/// of the base64 alphabet proper (no `=`).
pub open spec fn valid_b64_digest(s: Seq<u8>) -> bool {
    s.len() == 27 && (forall|i: int|
        0 <= i < s.len() ==> crate::document::is_base64_byte(s[i]) && s[i] != 61)
}

#[verifier::loop_isolation(false)]
fn check_b64_digest(s: &Vec<u8>) -> (r: bool)
    ensures
        r == valid_b64_digest(s@),
{
    if s.len() != 27 {
        return false;
    }
    let mut i: usize = 0;
    while i < s.len()
        invariant
            0 <= i <= s@.len(),
            forall|j: int|
                0 <= j < i ==> crate::document::is_base64_byte(#[trigger] s@[j]) && s@[j] != 61,
        decreases s@.len() - i,
    {
        let b = s[i];
        if !crate::grammar::base64_byte(b) || b == 61 {
            return false;
        }
        i = i + 1;
    }
    true
}

/// A port number that may be zero (meaning none): a decimal up to 65535.
pub open spec fn spec_dec_port0(s: Seq<u8>) -> Option<u16> {
    match spec_parse_u64(s) {
        Some(v) => if v <= 65535 {
            Some(v as u16)
        } else {
            None
        },
        None => None,
    }
}

fn dec_port0(s: &Vec<u8>) -> (r: Option<u16>)
    ensures
        r == spec_dec_port0(s@),
{
    match parse_u64(s) {
        Some(v) => if v <= 65535 {
            Some(v as u16)
        } else {
            None
        },
        None => None,
    }
}

/// `dir-source`: nickname, hex identity, address, IP, dirport, orport.
pub open spec fn spec_dec_dir_source(a: Option<Seq<u8>>) -> Result<AuthorityModel, ParseError> {
    match a {
        Some(s) => {
            let toks = spec_split_on(s, SP);
            if toks.len() != 6 || toks[0].len() == 0 || toks[2].len() == 0 {
                Err(ParseError::InvalidArgument)
            } else if !valid_hex_digest(toks[1], 40) {
                Err(ParseError::InvalidDigest)
            } else {
                match (spec_parse_ipv4(toks[3]), spec_dec_port0(toks[4]), spec_dec_port0(
                    toks[5],
                )) {
                    (Some(ip), Some(dirport), Some(orport)) => Ok(
                        AuthorityModel {
                            nickname: toks[0],
                            identity: toks[1],
                            address: toks[2],
                            ip,
                            dirport,
                            orport,
                            contact: None,
                            vote_digest: None,
                            legacy_dir_key: None,
                            shared_rand_participate: false,
                            commits: Seq::empty(),
                        },
                    ),
                    _ => Err(ParseError::InvalidArgument),
                }
            }
        },
        None => Err(ParseError::InvalidArgument),
    }
}

fn dec_dir_source(a: &Option<Vec<u8>>) -> (r: Result<Authority, ParseError>)
    ensures
        match r {
            Ok(auth) => spec_dec_dir_source(crate::model::opt_bytes_view(*a)) == Ok::<
                AuthorityModel,
                ParseError,
            >(auth@),
            Err(e) => spec_dec_dir_source(crate::model::opt_bytes_view(*a)) == Err::<
                AuthorityModel,
                ParseError,
            >(e),
        },
{
    match a {
        Some(s) => {
            let mut toks = split_on(s, SP);
            let ghost tv = spec_split_on(s@, SP);
            if toks.len() != 6 {
                return Err(ParseError::InvalidArgument);
            }
            proof {
                assert(toks@[0]@ == tv[0]);
                assert(toks@[1]@ == tv[1]);
                assert(toks@[2]@ == tv[2]);
                assert(toks@[3]@ == tv[3]);
                assert(toks@[4]@ == tv[4]);
                assert(toks@[5]@ == tv[5]);
            }
            if toks[0].len() == 0 || toks[2].len() == 0 {
                return Err(ParseError::InvalidArgument);
            }
            if !check_hex_digest(&toks[1], 40) {
                return Err(ParseError::InvalidDigest);
            }
            let ip = match parse_ipv4(&toks[3]) {
                Some(ip) => ip,
                None => {
                    return Err(ParseError::InvalidArgument);
                },
            };
            let dirport = match dec_port0(&toks[4]) {
                Some(p) => p,
                None => {
                    return Err(ParseError::InvalidArgument);
                },
            };
            let orport = match dec_port0(&toks[5]) {
                Some(p) => p,
                None => {
                    return Err(ParseError::InvalidArgument);
                },
            };
            let address = toks.remove(2);
            let identity = toks.remove(1);
            let nickname = toks.remove(0);
            proof {
                assert(nickname@ == tv[0] && identity@ == tv[1] && address@ == tv[2]);
            }
            let auth = Authority {
                nickname,
                identity,
                address,
                ip,
                dirport,
                orport,
                contact: None,
                vote_digest: None,
                legacy_dir_key: None,
                shared_rand_participate: false,
                commits: Vec::new(),
            };
            proof {
                assert(vec_view(auth.commits@) =~~= Seq::<Seq<u8>>::empty());
                assert(auth@ =~~= spec_dec_dir_source(crate::model::opt_bytes_view(*a))->Ok_0);
            }
            Ok(auth)
        },
        None => Err(ParseError::InvalidArgument),
    }
}

/// `r`: nickname, base64 identity, base64 digest, publication date and
/// time, IP, ORPort, DirPort.
pub open spec fn spec_dec_r(a: Option<Seq<u8>>) -> Result<RouterModel, ParseError> {
    match a {
        Some(s) => {
            let toks = spec_split_on(s, SP);
            if toks.len() != 8 || toks[0].len() == 0 {
                Err(ParseError::InvalidArgument)
            } else if !valid_b64_digest(toks[1]) || !valid_b64_digest(toks[2]) {
                Err(ParseError::InvalidDigest)
            } else {
                match spec_parse_timestamp(toks[3], toks[4]) {
                    Some(ts) => match (spec_parse_ipv4(toks[5]), spec_dec_port0(toks[6]),
                        spec_dec_port0(toks[7])) {
                        (Some(ip), Some(orport), Some(dirport)) => Ok(
                            RouterModel {
                                nickname: toks[0],
                                identity: toks[1],
                                digest: toks[2],
                                published: ts,
                                ip,
                                orport,
                                dirport,
                                addresses: Seq::empty(),
                                flags: None,
                                version: None,
                                protocols: None,
                                bandwidth: None,
                                exit_policy: None,
                                microdescs: Seq::empty(),
                                ed_identity: None,
                            },
                        ),
                        _ => Err(ParseError::InvalidArgument),
                    },
                    None => Err(ParseError::InvalidTimestamp),
                }
            }
        },
        None => Err(ParseError::InvalidArgument),
    }
}

fn dec_r(a: &Option<Vec<u8>>) -> (r: Result<RouterStatusEntry, ParseError>)
    ensures
        match r {
            Ok(rt) => spec_dec_r(crate::model::opt_bytes_view(*a)) == Ok::<
                RouterModel,
                ParseError,
            >(rt@),
            Err(e) => spec_dec_r(crate::model::opt_bytes_view(*a)) == Err::<
                RouterModel,
                ParseError,
            >(e),
        },
{
    match a {
        Some(s) => {
            let mut toks = split_on(s, SP);
            let ghost tv = spec_split_on(s@, SP);
            if toks.len() != 8 {
                return Err(ParseError::InvalidArgument);
            }
            proof {
                assert(toks@[0]@ == tv[0]);
                assert(toks@[1]@ == tv[1]);
                assert(toks@[2]@ == tv[2]);
                assert(toks@[3]@ == tv[3]);
                assert(toks@[4]@ == tv[4]);
                assert(toks@[5]@ == tv[5]);
                assert(toks@[6]@ == tv[6]);
                assert(toks@[7]@ == tv[7]);
            }
            if toks[0].len() == 0 {
                return Err(ParseError::InvalidArgument);
            }
            if !check_b64_digest(&toks[1]) || !check_b64_digest(&toks[2]) {
                return Err(ParseError::InvalidDigest);
            }
            let ts = match parse_timestamp(&toks[3], &toks[4]) {
                Some(ts) => ts,
                None => {
                    return Err(ParseError::InvalidTimestamp);
                },
            };
            let ip = match parse_ipv4(&toks[5]) {
                Some(ip) => ip,
                None => {
                    return Err(ParseError::InvalidArgument);
                },
            };
            let orport = match dec_port0(&toks[6]) {
                Some(p) => p,
                None => {
                    return Err(ParseError::InvalidArgument);
                },
            };
            let dirport = match dec_port0(&toks[7]) {
                Some(p) => p,
                None => {
                    return Err(ParseError::InvalidArgument);
                },
            };
            let digest = toks.remove(2);
            let identity = toks.remove(1);
            let nickname = toks.remove(0);
            proof {
                assert(nickname@ == tv[0] && identity@ == tv[1] && digest@ == tv[2]);
            }
            let rt = RouterStatusEntry {
                nickname,
                identity,
                digest,
                published: ts,
                ip,
                orport,
                dirport,
                addresses: Vec::new(),
                flags: None,
                version: None,
                protocols: None,
                bandwidth: None,
                exit_policy: None,
                microdescs: Vec::new(),
                ed_identity: None,
            };
            proof {
                assert(vec_view(rt.addresses@) =~~= Seq::<Seq<u8>>::empty());
                assert(vec_view(rt.microdescs@) =~~= Seq::<Seq<u8>>::empty());
                assert(rt@ =~~= spec_dec_r(crate::model::opt_bytes_view(*a))->Ok_0);
            }
            Ok(rt)
        },
        None => Err(ParseError::InvalidArgument),
    }
}

/// `directory-signature`: `[algorithm] identity signing-key-digest`, both
/// digests hex.
pub open spec fn spec_dec_signature(a: Option<Seq<u8>>) -> Result<SignatureModel, ParseError> {
    match a {
        Some(s) => {
            let toks = spec_split_on(s, SP);
            if toks.len() == 2 {
                if valid_hex_digest(toks[0], 40) && valid_hex_digest(toks[1], 40) {
                    Ok(
                        SignatureModel {
                            algorithm: None,
                            identity: toks[0],
                            signing_key_digest: toks[1],
                        },
                    )
                } else {
                    Err(ParseError::InvalidDigest)
                }
            } else if toks.len() == 3 {
                if toks[0].len() == 0 {
                    Err(ParseError::InvalidArgument)
                } else if valid_hex_digest(toks[1], 40) && valid_hex_digest(toks[2], 40) {
                    Ok(
                        SignatureModel {
                            algorithm: Some(toks[0]),
                            identity: toks[1],
                            signing_key_digest: toks[2],
                        },
                    )
                } else {
                    Err(ParseError::InvalidDigest)
                }
            } else {
                Err(ParseError::InvalidArgument)
            }
        },
        None => Err(ParseError::InvalidArgument),
    }
}

fn dec_signature(a: &Option<Vec<u8>>) -> (r: Result<DirectorySignature, ParseError>)
    ensures
        match r {
            Ok(sig) => spec_dec_signature(crate::model::opt_bytes_view(*a)) == Ok::<
                SignatureModel,
                ParseError,
            >(sig@),
            Err(e) => spec_dec_signature(crate::model::opt_bytes_view(*a)) == Err::<
                SignatureModel,
                ParseError,
            >(e),
        },
{
    match a {
        Some(s) => {
            let mut toks = split_on(s, SP);
            let ghost tv = spec_split_on(s@, SP);
            if toks.len() == 2 {
                proof {
                    assert(toks@[0]@ == tv[0]);
                    assert(toks@[1]@ == tv[1]);
                }
                if check_hex_digest(&toks[0], 40) && check_hex_digest(&toks[1], 40) {
                    let skd = toks.remove(1);
                    let identity = toks.remove(0);
                    proof {
                        assert(identity@ == tv[0] && skd@ == tv[1]);
                    }
                    Ok(DirectorySignature { algorithm: None, identity, signing_key_digest: skd })
                } else {
                    Err(ParseError::InvalidDigest)
                }
            } else if toks.len() == 3 {
                proof {
                    assert(toks@[0]@ == tv[0]);
                    assert(toks@[1]@ == tv[1]);
                    assert(toks@[2]@ == tv[2]);
                }
                if toks[0].len() == 0 {
                    return Err(ParseError::InvalidArgument);
                }
                if check_hex_digest(&toks[1], 40) && check_hex_digest(&toks[2], 40) {
                    let skd = toks.remove(2);
                    let identity = toks.remove(1);
                    let alg = toks.remove(0);
                    proof {
                        assert(alg@ == tv[0] && identity@ == tv[1] && skd@ == tv[2]);
                    }
                    Ok(
                        DirectorySignature {
                            algorithm: Some(alg),
                            identity,
                            signing_key_digest: skd,
                        },
                    )
                } else {
                    Err(ParseError::InvalidDigest)
                }
            } else {
                Err(ParseError::InvalidArgument)
            }
        },
        None => Err(ParseError::InvalidArgument),
    }
}

/// A shared-random value: `NumReveals Value`, the value base64.
pub open spec fn spec_dec_srv(a: Option<Seq<u8>>) -> Option<SharedRandValueModel> {
    match a {
        Some(s) => {
            let toks = spec_split_on(s, SP);
            if toks.len() == 2 {
                match spec_parse_u64(toks[0]) {
                    Some(n) => if valid_b64_token(toks[1]) {
                        Some(SharedRandValueModel { num_reveals: n, value: toks[1] })
                    } else {
                        None
                    },
                    None => None,
                }
            } else {
                None
            }
        },
        None => None,
    }
}

fn dec_srv(a: &Option<Vec<u8>>) -> (r: Option<SharedRandValue>)
    ensures
        match r {
            Some(v) => spec_dec_srv(crate::model::opt_bytes_view(*a)) == Some(v@),
            None => spec_dec_srv(crate::model::opt_bytes_view(*a)) is None,
        },
{
    match a {
        Some(s) => {
            let mut toks = split_on(s, SP);
            if toks.len() != 2 {
                return None;
            }
            proof {
                assert(toks@[0]@ == spec_split_on(s@, SP)[0]);
                assert(toks@[1]@ == spec_split_on(s@, SP)[1]);
            }
            let n = match parse_u64(&toks[0]) {
                Some(n) => n,
                None => {
                    return None;
                },
            };
            if !check_b64_token(&toks[1]) {
                return None;
            }
            let value = toks.remove(1);
            Some(SharedRandValue { num_reveals: n, value })
        },
        None => None,
    }
}

/// The four document sections, entered strictly in this order.
#[derive(Debug, Clone, Copy, PartialEq, Eq, Structural)]
pub enum Section {
    Preamble,
    Auths,
    Routers,
    Footer,
}

/// The assembler's state between two items.
#[verifier::ext_equal]
pub ghost struct AsmModel {
    /// Whether any item has been consumed (network-status-version must come
    /// first).
    pub started: bool,
    pub section: Section,
    pub doc: DocModel,
    /// The authority whose group is still open.
    pub cur_auth: Option<AuthorityModel>,
    /// The router entry still open.
    pub cur_router: Option<RouterModel>,
}

/// Closes the open authority group, if any.
pub open spec fn flush_auth_m(st: AsmModel) -> AsmModel {
    match st.cur_auth {
        Some(auth) => AsmModel {
            doc: DocModel { authorities: st.doc.authorities.push(auth), ..st.doc },
            cur_auth: None,
            ..st
        },
        None => st,
    }
}

/// Closes the open router entry, if any; a router without its `s` line is
/// missing a required field.
pub open spec fn flush_router_m(st: AsmModel) -> Result<AsmModel, ParseError> {
    match st.cur_router {
        Some(rt) => if rt.flags is None {
            Err(ParseError::MissingField(Field::RouterS))
        } else {
            Ok(
                AsmModel {
                    doc: DocModel { routers: st.doc.routers.push(rt), ..st.doc },
                    cur_router: None,
                    ..st
                },
            )
        },
        None => Ok(st),
    }
}

/// A field legal only in votes: before `vote-status` it reports that field
/// as missing, in a consensus it is unexpected.
pub open spec fn vote_only(v: Option<Variant>, f: Field) -> Option<ParseError> {
    match v {
        None => Some(ParseError::MissingField(Field::VoteStatus)),
        Some(Variant::Consensus) => Some(ParseError::UnexpectedField(f)),
        Some(Variant::Vote) => None,
    }
}

/// A field legal only in consensuses.
pub open spec fn consensus_only(v: Option<Variant>, f: Field) -> Option<ParseError> {
    match v {
        None => Some(ParseError::MissingField(Field::VoteStatus)),
        Some(Variant::Vote) => Some(ParseError::UnexpectedField(f)),
        Some(Variant::Consensus) => None,
    }
}

fn vote_only_e(v: &Option<Variant>, f: Field) -> (r: Option<ParseError>)
    ensures
        r == vote_only(*v, f),
{
    match v {
        None => Some(ParseError::MissingField(Field::VoteStatus)),
        Some(Variant::Consensus) => Some(ParseError::UnexpectedField(f)),
        Some(Variant::Vote) => None,
    }
}

fn consensus_only_e(v: &Option<Variant>, f: Field) -> (r: Option<ParseError>)
    ensures
        r == consensus_only(*v, f),
{
    match v {
        None => Some(ParseError::MissingField(Field::VoteStatus)),
        Some(Variant::Vote) => Some(ParseError::UnexpectedField(f)),
        Some(Variant::Consensus) => None,
    }
}

/// One step of the schema walk: dispatches one item by keyword, enforcing
/// section order, document-variant legality and per-field cardinality, and
/// merging the decoded value into the state.  Unrecognized keywords are
/// ignored for forward compatibility.  The dispatch is split over chained
/// helpers, one per keyword group.
pub open spec fn spec_apply_item(st: AsmModel, it: ItemModel) -> Result<AsmModel, ParseError> {
    spec_apply_g1(AsmModel { started: true, ..st }, it, st.started)
}

/// Versioning and status fields: network-status-version through
/// valid-after.
pub open spec fn spec_apply_g1(st: AsmModel, it: ItemModel, was: bool) -> Result<AsmModel, ParseError> {
    let kw = it.line.keyword;
    let a = it.line.arguments;
    if kw == kwb("network-status-version") {
        if was {
            Err(ParseError::UnexpectedField(Field::NetworkStatusVersion))
        } else {
            match spec_dec_u64_arg(a) {
                Some(v) => Ok(
                    AsmModel {
                        doc: DocModel { network_status_version: Some(v), ..st.doc },
                        ..st
                    },
                ),
                None => Err(ParseError::InvalidArgument),
            }
        }
    } else if kw == kwb("vote-status") {
        if st.section != Section::Preamble {
            Err(ParseError::UnexpectedField(Field::VoteStatus))
        } else if st.doc.variant is Some {
            Err(ParseError::DuplicateField(Field::VoteStatus))
        } else if a == Some(kwb("vote")) {
            Ok(AsmModel { doc: DocModel { variant: Some(Variant::Vote), ..st.doc }, ..st })
        } else if a == Some(kwb("consensus")) {
            Ok(AsmModel { doc: DocModel { variant: Some(Variant::Consensus), ..st.doc }, ..st })
        } else {
            Err(ParseError::InvalidArgument)
        }
    } else if kw == kwb("consensus-methods") {
        if st.section != Section::Preamble {
            Err(ParseError::UnexpectedField(Field::ConsensusMethods))
        } else {
            match vote_only(st.doc.variant, Field::ConsensusMethods) {
                Some(e) => Err(e),
                None => if st.doc.consensus_methods is Some {
                    Err(ParseError::DuplicateField(Field::ConsensusMethods))
                } else {
                    match spec_dec_u64_list(a) {
                        Some(v) => Ok(
                            AsmModel {
                                doc: DocModel { consensus_methods: Some(v), ..st.doc },
                                ..st
                            },
                        ),
                        None => Err(ParseError::InvalidArgument),
                    }
                },
            }
        }
    } else if kw == kwb("consensus-method") {
        if st.section != Section::Preamble {
            Err(ParseError::UnexpectedField(Field::ConsensusMethod))
        } else {
            match consensus_only(st.doc.variant, Field::ConsensusMethod) {
                Some(e) => Err(e),
                None => if st.doc.consensus_method is Some {
                    Err(ParseError::DuplicateField(Field::ConsensusMethod))
                } else {
                    match spec_dec_u64_arg(a) {
                        Some(v) => Ok(
                            AsmModel {
                                doc: DocModel { consensus_method: Some(v), ..st.doc },
                                ..st
                            },
                        ),
                        None => Err(ParseError::InvalidArgument),
                    }
                },
            }
        }
    } else if kw == kwb("published") {
        if st.section != Section::Preamble {
            Err(ParseError::UnexpectedField(Field::Published))
        } else {
            match vote_only(st.doc.variant, Field::Published) {
                Some(e) => Err(e),
                None => if st.doc.published is Some {
                    Err(ParseError::DuplicateField(Field::Published))
                } else {
                    match spec_dec_timestamp(a) {
                        Some(ts) => Ok(
                            AsmModel { doc: DocModel { published: Some(ts), ..st.doc }, ..st },
                        ),
                        None => Err(ParseError::InvalidTimestamp),
                    }
                },
            }
        }
    } else if kw == kwb("valid-after") {
        if st.section != Section::Preamble {
            Err(ParseError::UnexpectedField(Field::ValidAfter))
        } else if st.doc.valid_after is Some {
            Err(ParseError::DuplicateField(Field::ValidAfter))
        } else {
            match spec_dec_timestamp(a) {
                Some(ts) => Ok(
                    AsmModel { doc: DocModel { valid_after: Some(ts), ..st.doc }, ..st },
                ),
                None => Err(ParseError::InvalidTimestamp),
            }
        }
    } else {
        spec_apply_g2(st, it)
    }
}

/// Timing, version-list and package fields: fresh-until through package.
pub open spec fn spec_apply_g2(st: AsmModel, it: ItemModel) -> Result<AsmModel, ParseError> {
    let kw = it.line.keyword;
    let a = it.line.arguments;
    if kw == kwb("fresh-until") {
        if st.section != Section::Preamble {
            Err(ParseError::UnexpectedField(Field::FreshUntil))
        } else if st.doc.fresh_until is Some {
            Err(ParseError::DuplicateField(Field::FreshUntil))
        } else {
            match spec_dec_timestamp(a) {
                Some(ts) => Ok(
                    AsmModel { doc: DocModel { fresh_until: Some(ts), ..st.doc }, ..st },
                ),
                None => Err(ParseError::InvalidTimestamp),
            }
        }
    } else if kw == kwb("valid-until") {
        if st.section != Section::Preamble {
            Err(ParseError::UnexpectedField(Field::ValidUntil))
        } else if st.doc.valid_until is Some {
            Err(ParseError::DuplicateField(Field::ValidUntil))
        } else {
            match spec_dec_timestamp(a) {
                Some(ts) => Ok(
                    AsmModel { doc: DocModel { valid_until: Some(ts), ..st.doc }, ..st },
                ),
                None => Err(ParseError::InvalidTimestamp),
            }
        }
    } else if kw == kwb("voting-delay") {
        if st.section != Section::Preamble {
            Err(ParseError::UnexpectedField(Field::VotingDelay))
        } else if st.doc.voting_delay is Some {
            Err(ParseError::DuplicateField(Field::VotingDelay))
        } else {
            match spec_dec_two_u64(a) {
                Some(vd) => Ok(
                    AsmModel { doc: DocModel { voting_delay: Some(vd), ..st.doc }, ..st },
                ),
                None => Err(ParseError::InvalidArgument),
            }
        }
    } else if kw == kwb("client-versions") {
        if st.section != Section::Preamble {
            Err(ParseError::UnexpectedField(Field::ClientVersions))
        } else if st.doc.client_versions is Some {
            Err(ParseError::DuplicateField(Field::ClientVersions))
        } else {
            match spec_dec_tokens(a, 44) {
                Some(v) => Ok(
                    AsmModel { doc: DocModel { client_versions: Some(v), ..st.doc }, ..st },
                ),
                None => Err(ParseError::InvalidArgument),
            }
        }
    } else if kw == kwb("server-versions") {
        if st.section != Section::Preamble {
            Err(ParseError::UnexpectedField(Field::ServerVersions))
        } else if st.doc.server_versions is Some {
            Err(ParseError::DuplicateField(Field::ServerVersions))
        } else {
            match spec_dec_tokens(a, 44) {
                Some(v) => Ok(
                    AsmModel { doc: DocModel { server_versions: Some(v), ..st.doc }, ..st },
                ),
                None => Err(ParseError::InvalidArgument),
            }
        }
    } else if kw == kwb("package") {
        if st.section != Section::Preamble {
            Err(ParseError::UnexpectedField(Field::Package))
        } else {
            match spec_dec_package(a) {
                Some(p) => Ok(
                    AsmModel { doc: DocModel { packages: st.doc.packages.push(p), ..st.doc }, ..st },
                ),
                None => Err(ParseError::InvalidArgument),
            }
        }
    } else {
        spec_apply_g3(st, it)
    }
}

/// Flag and protocol fields: known-flags through the four protocol lines.
pub open spec fn spec_apply_g3(st: AsmModel, it: ItemModel) -> Result<AsmModel, ParseError> {
    let kw = it.line.keyword;
    let a = it.line.arguments;
    if kw == kwb("known-flags") {
        if st.section != Section::Preamble {
            Err(ParseError::UnexpectedField(Field::KnownFlags))
        } else if st.doc.known_flags is Some {
            Err(ParseError::DuplicateField(Field::KnownFlags))
        } else {
            match spec_dec_tokens(a, SP) {
                Some(v) => Ok(
                    AsmModel { doc: DocModel { known_flags: Some(v), ..st.doc }, ..st },
                ),
                None => Err(ParseError::InvalidArgument),
            }
        }
    } else if kw == kwb("flag-thresholds") {
        if st.section != Section::Preamble {
            Err(ParseError::UnexpectedField(Field::FlagThresholds))
        } else {
            match vote_only(st.doc.variant, Field::FlagThresholds) {
                Some(e) => Err(e),
                None => if st.doc.flag_thresholds is Some {
                    Err(ParseError::DuplicateField(Field::FlagThresholds))
                } else {
                    match spec_dec_raw_params(a) {
                        Some(v) => Ok(
                            AsmModel {
                                doc: DocModel { flag_thresholds: Some(v), ..st.doc },
                                ..st
                            },
                        ),
                        None => Err(ParseError::InvalidArgument),
                    }
                },
            }
        }
    } else if kw == kwb("recommended-client-protocols") {
        if st.section != Section::Preamble {
            Err(ParseError::UnexpectedField(Field::RecommendedClientProtocols))
        } else if st.doc.recommended_client_protocols is Some {
            Err(ParseError::DuplicateField(Field::RecommendedClientProtocols))
        } else {
            match spec_dec_protos(a) {
                Some(v) => Ok(
                    AsmModel {
                        doc: DocModel { recommended_client_protocols: Some(v), ..st.doc },
                        ..st
                    },
                ),
                None => Err(ParseError::InvalidArgument),
            }
        }
    } else if kw == kwb("recommended-relay-protocols") {
        if st.section != Section::Preamble {
            Err(ParseError::UnexpectedField(Field::RecommendedRelayProtocols))
        } else if st.doc.recommended_relay_protocols is Some {
            Err(ParseError::DuplicateField(Field::RecommendedRelayProtocols))
        } else {
            match spec_dec_protos(a) {
                Some(v) => Ok(
                    AsmModel {
                        doc: DocModel { recommended_relay_protocols: Some(v), ..st.doc },
                        ..st
                    },
                ),
                None => Err(ParseError::InvalidArgument),
            }
        }
    } else if kw == kwb("required-client-protocols") {
        if st.section != Section::Preamble {
            Err(ParseError::UnexpectedField(Field::RequiredClientProtocols))
        } else if st.doc.required_client_protocols is Some {
            Err(ParseError::DuplicateField(Field::RequiredClientProtocols))
        } else {
            match spec_dec_protos(a) {
                Some(v) => Ok(
                    AsmModel {
                        doc: DocModel { required_client_protocols: Some(v), ..st.doc },
                        ..st
                    },
                ),
                None => Err(ParseError::InvalidArgument),
            }
        }
    } else if kw == kwb("required-relay-protocols") {
        if st.section != Section::Preamble {
            Err(ParseError::UnexpectedField(Field::RequiredRelayProtocols))
        } else if st.doc.required_relay_protocols is Some {
            Err(ParseError::DuplicateField(Field::RequiredRelayProtocols))
        } else {
            match spec_dec_protos(a) {
                Some(v) => Ok(
                    AsmModel {
                        doc: DocModel { required_relay_protocols: Some(v), ..st.doc },
                        ..st
                    },
                ),
                None => Err(ParseError::InvalidArgument),
            }
        }
    } else {
        spec_apply_g4(st, it)
    }
}

/// Params, shared-random values and the start of the authority section.
pub open spec fn spec_apply_g4(st: AsmModel, it: ItemModel) -> Result<AsmModel, ParseError> {
    let kw = it.line.keyword;
    let a = it.line.arguments;
    if kw == kwb("params") {
        if st.section != Section::Preamble {
            Err(ParseError::UnexpectedField(Field::Params))
        } else if st.doc.params is Some {
            Err(ParseError::DuplicateField(Field::Params))
        } else {
            match spec_dec_int_params(a) {
                Some(v) => Ok(AsmModel { doc: DocModel { params: Some(v), ..st.doc }, ..st }),
                None => Err(ParseError::InvalidArgument),
            }
        }
    } else if kw == kwb("shared-rand-previous-value") {
        if st.section != Section::Preamble {
            Err(ParseError::UnexpectedField(Field::SharedRandPreviousValue))
        } else if st.doc.shared_rand_previous is Some {
            Err(ParseError::DuplicateField(Field::SharedRandPreviousValue))
        } else {
            match spec_dec_srv(a) {
                Some(v) => Ok(
                    AsmModel { doc: DocModel { shared_rand_previous: Some(v), ..st.doc }, ..st },
                ),
                None => Err(ParseError::InvalidArgument),
            }
        }
    } else if kw == kwb("shared-rand-current-value") {
        if st.section != Section::Preamble {
            Err(ParseError::UnexpectedField(Field::SharedRandCurrentValue))
        } else if st.doc.shared_rand_current is Some {
            Err(ParseError::DuplicateField(Field::SharedRandCurrentValue))
        } else {
            match spec_dec_srv(a) {
                Some(v) => Ok(
                    AsmModel { doc: DocModel { shared_rand_current: Some(v), ..st.doc }, ..st },
                ),
                None => Err(ParseError::InvalidArgument),
            }
        }
    } else if kw == kwb("dir-source") {
        if st.section == Section::Routers || st.section == Section::Footer {
            Err(ParseError::UnexpectedField(Field::DirSource))
        } else {
            match spec_dec_dir_source(a) {
                Ok(auth) => {
                    let stf = flush_auth_m(st);
                    Ok(AsmModel { section: Section::Auths, cur_auth: Some(auth), ..stf })
                },
                Err(e) => Err(e),
            }
        }
    } else if kw == kwb("contact") {
        match st.cur_auth {
            None => Err(ParseError::UnexpectedField(Field::Contact)),
            Some(auth) => if auth.contact is Some {
                Err(ParseError::DuplicateField(Field::Contact))
            } else {
                match a {
                    Some(s) => Ok(
                        AsmModel {
                            cur_auth: Some(AuthorityModel { contact: Some(s), ..auth }),
                            ..st
                        },
                    ),
                    None => Err(ParseError::InvalidArgument),
                }
            },
        }
    } else if kw == kwb("vote-digest") {
        match consensus_only(st.doc.variant, Field::VoteDigest) {
            Some(e) => Err(e),
            None => match st.cur_auth {
                None => Err(ParseError::UnexpectedField(Field::VoteDigest)),
                Some(auth) => if auth.vote_digest is Some {
                    Err(ParseError::DuplicateField(Field::VoteDigest))
                } else {
                    match a {
                        Some(s) => if valid_hex_digest(s, 40) {
                            Ok(
                                AsmModel {
                                    cur_auth: Some(
                                        AuthorityModel { vote_digest: Some(s), ..auth },
                                    ),
                                    ..st
                                },
                            )
                        } else {
                            Err(ParseError::InvalidDigest)
                        },
                        None => Err(ParseError::InvalidDigest),
                    }
                },
            },
        }
    } else {
        spec_apply_g5(st, it)
    }
}

/// The rest of the authority section and the start of a router entry.
pub open spec fn spec_apply_g5(st: AsmModel, it: ItemModel) -> Result<AsmModel, ParseError> {
    let kw = it.line.keyword;
    let a = it.line.arguments;
    if kw == kwb("legacy-dir-key") {
        match vote_only(st.doc.variant, Field::LegacyDirKey) {
            Some(e) => Err(e),
            None => match st.cur_auth {
                None => Err(ParseError::UnexpectedField(Field::LegacyDirKey)),
                Some(auth) => if auth.legacy_dir_key is Some {
                    Err(ParseError::DuplicateField(Field::LegacyDirKey))
                } else {
                    match a {
                        Some(s) => if valid_hex_digest(s, 40) {
                            Ok(
                                AsmModel {
                                    cur_auth: Some(
                                        AuthorityModel { legacy_dir_key: Some(s), ..auth },
                                    ),
                                    ..st
                                },
                            )
                        } else {
                            Err(ParseError::InvalidDigest)
                        },
                        None => Err(ParseError::InvalidDigest),
                    }
                },
            },
        }
    } else if kw == kwb("shared-rand-participate") {
        match vote_only(st.doc.variant, Field::SharedRandParticipate) {
            Some(e) => Err(e),
            None => match st.cur_auth {
                None => Err(ParseError::UnexpectedField(Field::SharedRandParticipate)),
                Some(auth) => if auth.shared_rand_participate {
                    Err(ParseError::DuplicateField(Field::SharedRandParticipate))
                } else if a is Some {
                    Err(ParseError::InvalidArgument)
                } else {
                    Ok(
                        AsmModel {
                            cur_auth: Some(
                                AuthorityModel { shared_rand_participate: true, ..auth },
                            ),
                            ..st
                        },
                    )
                },
            },
        }
    } else if kw == kwb("shared-rand-commit") {
        match vote_only(st.doc.variant, Field::SharedRandCommit) {
            Some(e) => Err(e),
            None => match st.cur_auth {
                None => Err(ParseError::UnexpectedField(Field::SharedRandCommit)),
                Some(auth) => match a {
                    Some(s) => Ok(
                        AsmModel {
                            cur_auth: Some(
                                AuthorityModel { commits: auth.commits.push(s), ..auth },
                            ),
                            ..st
                        },
                    ),
                    None => Err(ParseError::InvalidArgument),
                },
            },
        }
    } else if kw == kwb("r") {
        if st.section == Section::Footer {
            Err(ParseError::UnexpectedField(Field::RouterR))
        } else {
            match spec_dec_r(a) {
                Ok(rt) => match flush_router_m(flush_auth_m(st)) {
                    Ok(stf) => Ok(
                        AsmModel { section: Section::Routers, cur_router: Some(rt), ..stf },
                    ),
                    Err(e) => Err(e),
                },
                Err(e) => Err(e),
            }
        }
    } else if kw == kwb("a") {
        match st.cur_router {
            None => Err(ParseError::UnexpectedField(Field::RouterA)),
            Some(rt) => match a {
                Some(s) => Ok(
                    AsmModel {
                        cur_router: Some(RouterModel { addresses: rt.addresses.push(s), ..rt }),
                        ..st
                    },
                ),
                None => Err(ParseError::InvalidArgument),
            },
        }
    } else if kw == kwb("s") {
        match st.cur_router {
            None => Err(ParseError::UnexpectedField(Field::RouterS)),
            Some(rt) => if rt.flags is Some {
                Err(ParseError::DuplicateField(Field::RouterS))
            } else {
                match spec_dec_tokens(a, SP) {
                    Some(fs) => Ok(
                        AsmModel {
                            cur_router: Some(RouterModel { flags: Some(fs), ..rt }),
                            ..st
                        },
                    ),
                    None => Err(ParseError::InvalidArgument),
                }
            },
        }
    } else {
        spec_apply_g6(st, it)
    }
}

/// The remaining per-router lines: v, pr, w, p, m, id.
pub open spec fn spec_apply_g6(st: AsmModel, it: ItemModel) -> Result<AsmModel, ParseError> {
    let kw = it.line.keyword;
    let a = it.line.arguments;
    if kw == kwb("v") {
        match st.cur_router {
            None => Err(ParseError::UnexpectedField(Field::RouterV)),
            Some(rt) => if rt.version is Some {
                Err(ParseError::DuplicateField(Field::RouterV))
            } else {
                match a {
                    Some(s) => Ok(
                        AsmModel {
                            cur_router: Some(RouterModel { version: Some(s), ..rt }),
                            ..st
                        },
                    ),
                    None => Err(ParseError::InvalidArgument),
                }
            },
        }
    } else if kw == kwb("pr") {
        match st.cur_router {
            None => Err(ParseError::UnexpectedField(Field::RouterPr)),
            Some(rt) => if rt.protocols is Some {
                Err(ParseError::DuplicateField(Field::RouterPr))
            } else {
                match spec_dec_protos(a) {
                    Some(ps) => Ok(
                        AsmModel {
                            cur_router: Some(RouterModel { protocols: Some(ps), ..rt }),
                            ..st
                        },
                    ),
                    None => Err(ParseError::InvalidArgument),
                }
            },
        }
    } else if kw == kwb("w") {
        match st.cur_router {
            None => Err(ParseError::UnexpectedField(Field::RouterW)),
            Some(rt) => if rt.bandwidth is Some {
                Err(ParseError::DuplicateField(Field::RouterW))
            } else {
                match spec_dec_uint_params(a) {
                    Some(ws) => Ok(
                        AsmModel {
                            cur_router: Some(RouterModel { bandwidth: Some(ws), ..rt }),
                            ..st
                        },
                    ),
                    None => Err(ParseError::InvalidArgument),
                }
            },
        }
    } else if kw == kwb("p") {
        match st.cur_router {
            None => Err(ParseError::UnexpectedField(Field::RouterP)),
            Some(rt) => if rt.exit_policy is Some {
                Err(ParseError::DuplicateField(Field::RouterP))
            } else {
                match a {
                    Some(s) => {
                        let toks = spec_split_on(s, SP);
                        if toks.len() != 2 {
                            Err(ParseError::InvalidArgument)
                        } else if toks[0] == kwb("accept") || toks[0] == kwb("reject") {
                            match spec_parse_port_list(toks[1]) {
                                Some(ps) => Ok(
                                    AsmModel {
                                        cur_router: Some(
                                            RouterModel {
                                                exit_policy: Some(
                                                    (toks[0] == kwb("accept"), ps),
                                                ),
                                                ..rt
                                            },
                                        ),
                                        ..st
                                    },
                                ),
                                None => Err(ParseError::InvalidPortRange),
                            }
                        } else {
                            Err(ParseError::InvalidArgument)
                        }
                    },
                    None => Err(ParseError::InvalidArgument),
                }
            },
        }
    } else if kw == kwb("m") {
        match vote_only(st.doc.variant, Field::RouterM) {
            Some(e) => Err(e),
            None => match st.cur_router {
                None => Err(ParseError::UnexpectedField(Field::RouterM)),
                Some(rt) => match a {
                    Some(s) => Ok(
                        AsmModel {
                            cur_router: Some(
                                RouterModel { microdescs: rt.microdescs.push(s), ..rt },
                            ),
                            ..st
                        },
                    ),
                    None => Err(ParseError::InvalidArgument),
                },
            },
        }
    } else if kw == kwb("id") {
        match vote_only(st.doc.variant, Field::RouterId) {
            Some(e) => Err(e),
            None => match st.cur_router {
                None => Err(ParseError::UnexpectedField(Field::RouterId)),
                Some(rt) => if rt.ed_identity is Some {
                    Err(ParseError::DuplicateField(Field::RouterId))
                } else {
                    match a {
                        Some(s) => Ok(
                            AsmModel {
                                cur_router: Some(RouterModel { ed_identity: Some(s), ..rt }),
                                ..st
                            },
                        ),
                        None => Err(ParseError::InvalidArgument),
                    }
                },
            },
        }
    } else {
        spec_apply_g7(st, it)
    }
}

/// The footer: directory-footer, bandwidth-weights, directory-signature.
pub open spec fn spec_apply_g7(st: AsmModel, it: ItemModel) -> Result<AsmModel, ParseError> {
    let kw = it.line.keyword;
    let a = it.line.arguments;
    if kw == kwb("directory-footer") {
        if st.doc.has_footer {
            Err(ParseError::DuplicateField(Field::DirectoryFooter))
        } else if a is Some {
            Err(ParseError::InvalidArgument)
        } else {
            match flush_router_m(flush_auth_m(st)) {
                Ok(stf) => Ok(
                    AsmModel {
                        section: Section::Footer,
                        doc: DocModel { has_footer: true, ..stf.doc },
                        ..stf
                    },
                ),
                Err(e) => Err(e),
            }
        }
    } else if kw == kwb("bandwidth-weights") {
        match consensus_only(st.doc.variant, Field::BandwidthWeights) {
            Some(e) => Err(e),
            None => if st.doc.bandwidth_weights is Some {
                Err(ParseError::DuplicateField(Field::BandwidthWeights))
            } else {
                let ws = if a is None {
                    Some(Seq::<IntParamModel>::empty())
                } else {
                    spec_dec_int_params(a)
                };
                match ws {
                    Some(ws) => match flush_router_m(flush_auth_m(st)) {
                        Ok(stf) => Ok(
                            AsmModel {
                                section: Section::Footer,
                                doc: DocModel { bandwidth_weights: Some(ws), ..stf.doc },
                                ..stf
                            },
                        ),
                        Err(e) => Err(e),
                    },
                    None => Err(ParseError::InvalidArgument),
                }
            },
        }
    } else if kw == kwb("directory-signature") {
        if st.doc.variant == Some(Variant::Vote) && st.doc.signatures.len() >= 1 {
            Err(ParseError::DuplicateField(Field::DirectorySignature))
        } else {
            match spec_dec_signature(a) {
                Ok(sig) => match flush_router_m(flush_auth_m(st)) {
                    Ok(stf) => Ok(
                        AsmModel {
                            section: Section::Footer,
                            doc: DocModel { signatures: stf.doc.signatures.push(sig), ..stf.doc },
                            ..stf
                        },
                    ),
                    Err(e) => Err(e),
                },
                Err(e) => Err(e),
            }
        }
    } else {
        Ok(st)
    }
}

/// The assembler's executable state.
pub struct AsmState {
    pub started: bool,
    pub section: Section,
    pub doc: ConsensusDocument,
    pub cur_auth: Option<Authority>,
    pub cur_router: Option<RouterStatusEntry>,
}

impl View for AsmState {
    type V = AsmModel;

    open spec fn view(&self) -> AsmModel {
        AsmModel {
            started: self.started,
            section: self.section,
            doc: self.doc@,
            cur_auth: match self.cur_auth {
                Some(a) => Some(a@),
                None => None,
            },
            cur_router: match self.cur_router {
                Some(r) => Some(r@),
                None => None,
            },
        }
    }
}

/// Copies a borrowed byte token.
fn own_bytes(s: &Vec<u8>) -> (r: Vec<u8>)
    ensures
        r@ == s@,
{
    let r = crate::decoders::subvec(s, 0, s.len());
    proof {
        assert(r@ =~= s@);
    }
    r
}

/// Closes the open authority group, if any.
fn flush_auth(st: &mut AsmState)
    ensures
        final(st)@ == flush_auth_m(old(st)@),
{
    let prev = st.cur_auth.take();
    match prev {
        Some(auth) => {
            let ghost ov = st.doc.authorities@;
            st.doc.authorities.push(auth);
            proof {
                assert(st.doc.authorities@.last()@ == old(st)@.cur_auth->Some_0);
                assert(vec_view(st.doc.authorities@) =~~= vec_view(ov).push(
                    st.doc.authorities@.last()@,
                ));
                assert(st@ =~~= flush_auth_m(old(st)@));
            }
        },
        None => {
            proof {
                assert(st@ =~~= flush_auth_m(old(st)@));
            }
        },
    }
}

/// Closes the open router entry, if any; absence of its `s` line is fatal.
fn flush_router(st: &mut AsmState) -> (r: Result<(), ParseError>)
    ensures
        match r {
            Ok(()) => flush_router_m(old(st)@) == Ok::<AsmModel, ParseError>(final(st)@),
            Err(e) => flush_router_m(old(st)@) == Err::<AsmModel, ParseError>(e),
        },
{
    let prev = st.cur_router.take();
    match prev {
        Some(rt) => {
            if rt.flags.is_none() {
                return Err(ParseError::MissingField(Field::RouterS));
            }
            let ghost ov = st.doc.routers@;
            st.doc.routers.push(rt);
            proof {
                assert(st.doc.routers@.last()@ == old(st)@.cur_router->Some_0);
                assert(vec_view(st.doc.routers@) =~~= vec_view(ov).push(
                    st.doc.routers@.last()@,
                ));
                assert(flush_router_m(old(st)@) == Ok::<AsmModel, ParseError>(st@)) by {
                    assert(st@ =~~= flush_router_m(old(st)@)->Ok_0);
                }
            }
            Ok(())
        },
        None => {
            proof {
                assert(st@ =~~= old(st)@);
            }
            Ok(())
        },
    }
}

/// Versioning and status fields, executable side.
#[verifier::rlimit(100)]
#[verifier::spinoff_prover]
fn apply_g1(st: &mut AsmState, it: &crate::document::Item, was: bool) -> (r: Result<(), ParseError>)
    ensures
        match r {
            Ok(()) => spec_apply_g1(old(st)@, it@, was) == Ok::<AsmModel, ParseError>(final(st)@),
            Err(e) => spec_apply_g1(old(st)@, it@, was) == Err::<AsmModel, ParseError>(e),
        },
{
    let kwv = &it.keyword_line.keyword.bytes;
    let a = &it.keyword_line.arguments;
    proof {
        assert(it@.line.keyword == kwv@);
        assert(it@.line.arguments == crate::model::opt_bytes_view(*a));
    }
    if kw_eq(kwv, "network-status-version") {
        if was {
            return Err(ParseError::UnexpectedField(Field::NetworkStatusVersion));
        }
        match dec_u64_arg(a) {
            Some(v) => {
                st.doc.network_status_version = Some(v);
                proof {
                    assert(spec_apply_g1(old(st)@, it@, was) == Ok::<AsmModel, ParseError>(st@)) by {
                        assert(st@ =~= spec_apply_g1(old(st)@, it@, was)->Ok_0);
                    }
                }
                Ok(())
            },
            None => Err(ParseError::InvalidArgument),
        }
    } else if kw_eq(kwv, "vote-status") {
        if st.section != Section::Preamble {
            return Err(ParseError::UnexpectedField(Field::VoteStatus));
        }
        if st.doc.variant.is_some() {
            return Err(ParseError::DuplicateField(Field::VoteStatus));
        }
        let is_vote = match a {
            Some(s) => kw_eq(s, "vote"),
            None => false,
        };
        let is_consensus = match a {
            Some(s) => kw_eq(s, "consensus"),
            None => false,
        };
        if is_vote {
            st.doc.variant = Some(Variant::Vote);
            proof {
                assert(spec_apply_g1(old(st)@, it@, was) == Ok::<AsmModel, ParseError>(st@)) by {
                    assert(st@ =~= spec_apply_g1(old(st)@, it@, was)->Ok_0);
                }
            }
            Ok(())
        } else if is_consensus {
            st.doc.variant = Some(Variant::Consensus);
            proof {
                assert(spec_apply_g1(old(st)@, it@, was) == Ok::<AsmModel, ParseError>(st@)) by {
                    assert(st@ =~= spec_apply_g1(old(st)@, it@, was)->Ok_0);
                }
            }
            Ok(())
        } else {
            Err(ParseError::InvalidArgument)
        }
    } else if kw_eq(kwv, "consensus-methods") {
        if st.section != Section::Preamble {
            return Err(ParseError::UnexpectedField(Field::ConsensusMethods));
        }
        if let Some(e) = vote_only_e(&st.doc.variant, Field::ConsensusMethods) {
            return Err(e);
        }
        if st.doc.consensus_methods.is_some() {
            return Err(ParseError::DuplicateField(Field::ConsensusMethods));
        }
        match dec_u64_list(a) {
            Some(v) => {
                st.doc.consensus_methods = Some(v);
                proof {
                    assert(spec_apply_g1(old(st)@, it@, was) == Ok::<AsmModel, ParseError>(st@)) by {
                        assert(st@ =~= spec_apply_g1(old(st)@, it@, was)->Ok_0);
                    }
                }
                Ok(())
            },
            None => Err(ParseError::InvalidArgument),
        }
    } else if kw_eq(kwv, "consensus-method") {
        if st.section != Section::Preamble {
            return Err(ParseError::UnexpectedField(Field::ConsensusMethod));
        }
        if let Some(e) = consensus_only_e(&st.doc.variant, Field::ConsensusMethod) {
            return Err(e);
        }
        if st.doc.consensus_method.is_some() {
            return Err(ParseError::DuplicateField(Field::ConsensusMethod));
        }
        match dec_u64_arg(a) {
            Some(v) => {
                st.doc.consensus_method = Some(v);
                proof {
                    assert(spec_apply_g1(old(st)@, it@, was) == Ok::<AsmModel, ParseError>(st@)) by {
                        assert(st@ =~= spec_apply_g1(old(st)@, it@, was)->Ok_0);
                    }
                }
                Ok(())
            },
            None => Err(ParseError::InvalidArgument),
        }
    } else if kw_eq(kwv, "published") {
        if st.section != Section::Preamble {
            return Err(ParseError::UnexpectedField(Field::Published));
        }
        if let Some(e) = vote_only_e(&st.doc.variant, Field::Published) {
            return Err(e);
        }
        if st.doc.published.is_some() {
            return Err(ParseError::DuplicateField(Field::Published));
        }
        match dec_timestamp(a) {
            Some(ts) => {
                st.doc.published = Some(ts);
                proof {
                    assert(spec_apply_g1(old(st)@, it@, was) == Ok::<AsmModel, ParseError>(st@)) by {
                        assert(st@ =~= spec_apply_g1(old(st)@, it@, was)->Ok_0);
                    }
                }
                Ok(())
            },
            None => Err(ParseError::InvalidTimestamp),
        }
    } else if kw_eq(kwv, "valid-after") {
        if st.section != Section::Preamble {
            return Err(ParseError::UnexpectedField(Field::ValidAfter));
        }
        if st.doc.valid_after.is_some() {
            return Err(ParseError::DuplicateField(Field::ValidAfter));
        }
        match dec_timestamp(a) {
            Some(ts) => {
                st.doc.valid_after = Some(ts);
                proof {
                    assert(spec_apply_g1(old(st)@, it@, was) == Ok::<AsmModel, ParseError>(st@)) by {
                        assert(st@ =~= spec_apply_g1(old(st)@, it@, was)->Ok_0);
                    }
                }
                Ok(())
            },
            None => Err(ParseError::InvalidTimestamp),
        }
    } else {
        apply_g2(st, it)
    }
}

/// Timing, version-list and package fields, executable side.
#[verifier::rlimit(100)]
#[verifier::spinoff_prover]
fn apply_g2(st: &mut AsmState, it: &crate::document::Item) -> (r: Result<(), ParseError>)
    ensures
        match r {
            Ok(()) => spec_apply_g2(old(st)@, it@) == Ok::<AsmModel, ParseError>(final(st)@),
            Err(e) => spec_apply_g2(old(st)@, it@) == Err::<AsmModel, ParseError>(e),
        },
{
    let kwv = &it.keyword_line.keyword.bytes;
    let a = &it.keyword_line.arguments;
    proof {
        assert(it@.line.keyword == kwv@);
        assert(it@.line.arguments == crate::model::opt_bytes_view(*a));
    }
    if kw_eq(kwv, "fresh-until") {
        if st.section != Section::Preamble {
            return Err(ParseError::UnexpectedField(Field::FreshUntil));
        }
        if st.doc.fresh_until.is_some() {
            return Err(ParseError::DuplicateField(Field::FreshUntil));
        }
        match dec_timestamp(a) {
            Some(ts) => {
                st.doc.fresh_until = Some(ts);
                proof {
                    assert(spec_apply_g2(old(st)@, it@) == Ok::<AsmModel, ParseError>(st@)) by {
                        assert(st@ =~= spec_apply_g2(old(st)@, it@)->Ok_0);
                    }
                }
                Ok(())
            },
            None => Err(ParseError::InvalidTimestamp),
        }
    } else if kw_eq(kwv, "valid-until") {
        if st.section != Section::Preamble {
            return Err(ParseError::UnexpectedField(Field::ValidUntil));
        }
        if st.doc.valid_until.is_some() {
            return Err(ParseError::DuplicateField(Field::ValidUntil));
        }
        match dec_timestamp(a) {
            Some(ts) => {
                st.doc.valid_until = Some(ts);
                proof {
                    assert(spec_apply_g2(old(st)@, it@) == Ok::<AsmModel, ParseError>(st@)) by {
                        assert(st@ =~= spec_apply_g2(old(st)@, it@)->Ok_0);
                    }
                }
                Ok(())
            },
            None => Err(ParseError::InvalidTimestamp),
        }
    } else if kw_eq(kwv, "voting-delay") {
        if st.section != Section::Preamble {
            return Err(ParseError::UnexpectedField(Field::VotingDelay));
        }
        if st.doc.voting_delay.is_some() {
            return Err(ParseError::DuplicateField(Field::VotingDelay));
        }
        match dec_two_u64(a) {
            Some(vd) => {
                st.doc.voting_delay = Some(vd);
                proof {
                    assert(spec_apply_g2(old(st)@, it@) == Ok::<AsmModel, ParseError>(st@)) by {
                        assert(st@ =~= spec_apply_g2(old(st)@, it@)->Ok_0);
                    }
                }
                Ok(())
            },
            None => Err(ParseError::InvalidArgument),
        }
    } else if kw_eq(kwv, "client-versions") {
        if st.section != Section::Preamble {
            return Err(ParseError::UnexpectedField(Field::ClientVersions));
        }
        if st.doc.client_versions.is_some() {
            return Err(ParseError::DuplicateField(Field::ClientVersions));
        }
        match dec_tokens(a, 44) {
            Some(v) => {
                st.doc.client_versions = Some(v);
                proof {
                    assert(spec_apply_g2(old(st)@, it@) == Ok::<AsmModel, ParseError>(st@)) by {
                        assert(st@ =~= spec_apply_g2(old(st)@, it@)->Ok_0);
                    }
                }
                Ok(())
            },
            None => Err(ParseError::InvalidArgument),
        }
    } else if kw_eq(kwv, "server-versions") {
        if st.section != Section::Preamble {
            return Err(ParseError::UnexpectedField(Field::ServerVersions));
        }
        if st.doc.server_versions.is_some() {
            return Err(ParseError::DuplicateField(Field::ServerVersions));
        }
        match dec_tokens(a, 44) {
            Some(v) => {
                st.doc.server_versions = Some(v);
                proof {
                    assert(spec_apply_g2(old(st)@, it@) == Ok::<AsmModel, ParseError>(st@)) by {
                        assert(st@ =~= spec_apply_g2(old(st)@, it@)->Ok_0);
                    }
                }
                Ok(())
            },
            None => Err(ParseError::InvalidArgument),
        }
    } else if kw_eq(kwv, "package") {
        if st.section != Section::Preamble {
            return Err(ParseError::UnexpectedField(Field::Package));
        }
        match dec_package(a) {
            Some(p) => {
                let ghost ov = st.doc.packages@;
                st.doc.packages.push(p);
                proof {
                    assert(st.doc.packages@.last()@ == spec_dec_package(it@.line.arguments)
                        ->Some_0);
                    assert(vec_view(st.doc.packages@) =~~= vec_view(ov).push(
                        st.doc.packages@.last()@,
                    ));
                    assert(spec_apply_g2(old(st)@, it@) == Ok::<AsmModel, ParseError>(st@)) by {
                        assert(st@ =~= spec_apply_g2(old(st)@, it@)->Ok_0);
                    }
                }
                Ok(())
            },
            None => Err(ParseError::InvalidArgument),
        }
    } else {
        apply_g3(st, it)
    }
}

/// Flag and protocol fields, executable side.
#[verifier::rlimit(100)]
#[verifier::spinoff_prover]
fn apply_g3(st: &mut AsmState, it: &crate::document::Item) -> (r: Result<(), ParseError>)
    ensures
        match r {
            Ok(()) => spec_apply_g3(old(st)@, it@) == Ok::<AsmModel, ParseError>(final(st)@),
            Err(e) => spec_apply_g3(old(st)@, it@) == Err::<AsmModel, ParseError>(e),
        },
{
    let kwv = &it.keyword_line.keyword.bytes;
    let a = &it.keyword_line.arguments;
    proof {
        assert(it@.line.keyword == kwv@);
        assert(it@.line.arguments == crate::model::opt_bytes_view(*a));
    }
    if kw_eq(kwv, "known-flags") {
        if st.section != Section::Preamble {
            return Err(ParseError::UnexpectedField(Field::KnownFlags));
        }
        if st.doc.known_flags.is_some() {
            return Err(ParseError::DuplicateField(Field::KnownFlags));
        }
        match dec_tokens(a, SP) {
            Some(v) => {
                st.doc.known_flags = Some(v);
                proof {
                    assert(spec_apply_g3(old(st)@, it@) == Ok::<AsmModel, ParseError>(st@)) by {
                        assert(st@ =~= spec_apply_g3(old(st)@, it@)->Ok_0);
                    }
                }
                Ok(())
            },
            None => Err(ParseError::InvalidArgument),
        }
    } else if kw_eq(kwv, "flag-thresholds") {
        if st.section != Section::Preamble {
            return Err(ParseError::UnexpectedField(Field::FlagThresholds));
        }
        if let Some(e) = vote_only_e(&st.doc.variant, Field::FlagThresholds) {
            return Err(e);
        }
        if st.doc.flag_thresholds.is_some() {
            return Err(ParseError::DuplicateField(Field::FlagThresholds));
        }
        match dec_raw_params(a) {
            Some(v) => {
                st.doc.flag_thresholds = Some(v);
                proof {
                    assert(spec_apply_g3(old(st)@, it@) == Ok::<AsmModel, ParseError>(st@)) by {
                        assert(st@ =~= spec_apply_g3(old(st)@, it@)->Ok_0);
                    }
                }
                Ok(())
            },
            None => Err(ParseError::InvalidArgument),
        }
    } else if kw_eq(kwv, "recommended-client-protocols") {
        if st.section != Section::Preamble {
            return Err(ParseError::UnexpectedField(Field::RecommendedClientProtocols));
        }
        if st.doc.recommended_client_protocols.is_some() {
            return Err(ParseError::DuplicateField(Field::RecommendedClientProtocols));
        }
        match dec_protos(a) {
            Some(v) => {
                st.doc.recommended_client_protocols = Some(v);
                proof {
                    assert(spec_apply_g3(old(st)@, it@) == Ok::<AsmModel, ParseError>(st@)) by {
                        assert(st@ =~= spec_apply_g3(old(st)@, it@)->Ok_0);
                    }
                }
                Ok(())
            },
            None => Err(ParseError::InvalidArgument),
        }
    } else if kw_eq(kwv, "recommended-relay-protocols") {
        if st.section != Section::Preamble {
            return Err(ParseError::UnexpectedField(Field::RecommendedRelayProtocols));
        }
        if st.doc.recommended_relay_protocols.is_some() {
            return Err(ParseError::DuplicateField(Field::RecommendedRelayProtocols));
        }
        match dec_protos(a) {
            Some(v) => {
                st.doc.recommended_relay_protocols = Some(v);
                proof {
                    assert(spec_apply_g3(old(st)@, it@) == Ok::<AsmModel, ParseError>(st@)) by {
                        assert(st@ =~= spec_apply_g3(old(st)@, it@)->Ok_0);
                    }
                }
                Ok(())
            },
            None => Err(ParseError::InvalidArgument),
        }
    } else if kw_eq(kwv, "required-client-protocols") {
        if st.section != Section::Preamble {
            return Err(ParseError::UnexpectedField(Field::RequiredClientProtocols));
        }
        if st.doc.required_client_protocols.is_some() {
            return Err(ParseError::DuplicateField(Field::RequiredClientProtocols));
        }
        match dec_protos(a) {
            Some(v) => {
                st.doc.required_client_protocols = Some(v);
                proof {
                    assert(spec_apply_g3(old(st)@, it@) == Ok::<AsmModel, ParseError>(st@)) by {
                        assert(st@ =~= spec_apply_g3(old(st)@, it@)->Ok_0);
                    }
                }
                Ok(())
            },
            None => Err(ParseError::InvalidArgument),
        }
    } else if kw_eq(kwv, "required-relay-protocols") {
        if st.section != Section::Preamble {
            return Err(ParseError::UnexpectedField(Field::RequiredRelayProtocols));
        }
        if st.doc.required_relay_protocols.is_some() {
            return Err(ParseError::DuplicateField(Field::RequiredRelayProtocols));
        }
        match dec_protos(a) {
            Some(v) => {
                st.doc.required_relay_protocols = Some(v);
                proof {
                    assert(spec_apply_g3(old(st)@, it@) == Ok::<AsmModel, ParseError>(st@)) by {
                        assert(st@ =~= spec_apply_g3(old(st)@, it@)->Ok_0);
                    }
                }
                Ok(())
            },
            None => Err(ParseError::InvalidArgument),
        }
    } else {
        apply_g4(st, it)
    }
}

/// Params, shared-random values and dir-source group, executable side.
#[verifier::rlimit(100)]
#[verifier::spinoff_prover]
fn apply_g4(st: &mut AsmState, it: &crate::document::Item) -> (r: Result<(), ParseError>)
    ensures
        match r {
            Ok(()) => spec_apply_g4(old(st)@, it@) == Ok::<AsmModel, ParseError>(final(st)@),
            Err(e) => spec_apply_g4(old(st)@, it@) == Err::<AsmModel, ParseError>(e),
        },
{
    let kwv = &it.keyword_line.keyword.bytes;
    let a = &it.keyword_line.arguments;
    proof {
        assert(it@.line.keyword == kwv@);
        assert(it@.line.arguments == crate::model::opt_bytes_view(*a));
    }
    if kw_eq(kwv, "params") {
        if st.section != Section::Preamble {
            return Err(ParseError::UnexpectedField(Field::Params));
        }
        if st.doc.params.is_some() {
            return Err(ParseError::DuplicateField(Field::Params));
        }
        match dec_int_params(a) {
            Some(v) => {
                st.doc.params = Some(v);
                proof {
                    assert(spec_apply_g4(old(st)@, it@) == Ok::<AsmModel, ParseError>(st@)) by {
                        assert(st@ =~= spec_apply_g4(old(st)@, it@)->Ok_0);
                    }
                }
                Ok(())
            },
            None => Err(ParseError::InvalidArgument),
        }
    } else if kw_eq(kwv, "shared-rand-previous-value") {
        if st.section != Section::Preamble {
            return Err(ParseError::UnexpectedField(Field::SharedRandPreviousValue));
        }
        if st.doc.shared_rand_previous.is_some() {
            return Err(ParseError::DuplicateField(Field::SharedRandPreviousValue));
        }
        match dec_srv(a) {
            Some(v) => {
                st.doc.shared_rand_previous = Some(v);
                proof {
                    assert(spec_apply_g4(old(st)@, it@) == Ok::<AsmModel, ParseError>(st@)) by {
                        assert(st@ =~= spec_apply_g4(old(st)@, it@)->Ok_0);
                    }
                }
                Ok(())
            },
            None => Err(ParseError::InvalidArgument),
        }
    } else if kw_eq(kwv, "shared-rand-current-value") {
        if st.section != Section::Preamble {
            return Err(ParseError::UnexpectedField(Field::SharedRandCurrentValue));
        }
        if st.doc.shared_rand_current.is_some() {
            return Err(ParseError::DuplicateField(Field::SharedRandCurrentValue));
        }
        match dec_srv(a) {
            Some(v) => {
                st.doc.shared_rand_current = Some(v);
                proof {
                    assert(spec_apply_g4(old(st)@, it@) == Ok::<AsmModel, ParseError>(st@)) by {
                        assert(st@ =~= spec_apply_g4(old(st)@, it@)->Ok_0);
                    }
                }
                Ok(())
            },
            None => Err(ParseError::InvalidArgument),
        }
    } else if kw_eq(kwv, "dir-source") {
        if st.section == Section::Routers || st.section == Section::Footer {
            return Err(ParseError::UnexpectedField(Field::DirSource));
        }
        match dec_dir_source(a) {
            Ok(auth) => {
                proof {
                }
                flush_auth(st);
                st.section = Section::Auths;
                st.cur_auth = Some(auth);
                proof {
                    assert(spec_apply_g4(old(st)@, it@) == Ok::<AsmModel, ParseError>(st@)) by {
                        assert(st@ =~= spec_apply_g4(old(st)@, it@)->Ok_0);
                    }
                }
                Ok(())
            },
            Err(e) => Err(e),
        }
    } else if kw_eq(kwv, "contact") {
        match &mut st.cur_auth {
            None => Err(ParseError::UnexpectedField(Field::Contact)),
            Some(auth) => {
                if auth.contact.is_some() {
                    return Err(ParseError::DuplicateField(Field::Contact));
                }
                match a {
                    Some(s) => {
                        auth.contact = Some(own_bytes(s));
                        proof {
                            assert(spec_apply_g4(old(st)@, it@) == Ok::<AsmModel, ParseError>(
                                st@,
                            )) by {
                                assert(st@ =~= spec_apply_g4(old(st)@, it@)->Ok_0);
                            }
                        }
                        Ok(())
                    },
                    None => Err(ParseError::InvalidArgument),
                }
            },
        }
    } else if kw_eq(kwv, "vote-digest") {
        if let Some(e) = consensus_only_e(&st.doc.variant, Field::VoteDigest) {
            return Err(e);
        }
        match &mut st.cur_auth {
            None => Err(ParseError::UnexpectedField(Field::VoteDigest)),
            Some(auth) => {
                if auth.vote_digest.is_some() {
                    return Err(ParseError::DuplicateField(Field::VoteDigest));
                }
                match a {
                    Some(s) => {
                        if !check_hex_digest(s, 40) {
                            return Err(ParseError::InvalidDigest);
                        }
                        auth.vote_digest = Some(own_bytes(s));
                        proof {
                            assert(spec_apply_g4(old(st)@, it@) == Ok::<AsmModel, ParseError>(
                                st@,
                            )) by {
                                assert(st@ =~= spec_apply_g4(old(st)@, it@)->Ok_0);
                            }
                        }
                        Ok(())
                    },
                    None => Err(ParseError::InvalidDigest),
                }
            },
        }
    } else {
        apply_g5(st, it)
    }
}

/// Authority-section rest and router-entry start, executable side.
#[verifier::rlimit(100)]
#[verifier::spinoff_prover]
fn apply_g5(st: &mut AsmState, it: &crate::document::Item) -> (r: Result<(), ParseError>)
    ensures
        match r {
            Ok(()) => spec_apply_g5(old(st)@, it@) == Ok::<AsmModel, ParseError>(final(st)@),
            Err(e) => spec_apply_g5(old(st)@, it@) == Err::<AsmModel, ParseError>(e),
        },
{
    let kwv = &it.keyword_line.keyword.bytes;
    let a = &it.keyword_line.arguments;
    proof {
        assert(it@.line.keyword == kwv@);
        assert(it@.line.arguments == crate::model::opt_bytes_view(*a));
    }
    if kw_eq(kwv, "legacy-dir-key") {
        if let Some(e) = vote_only_e(&st.doc.variant, Field::LegacyDirKey) {
            return Err(e);
        }
        match &mut st.cur_auth {
            None => Err(ParseError::UnexpectedField(Field::LegacyDirKey)),
            Some(auth) => {
                if auth.legacy_dir_key.is_some() {
                    return Err(ParseError::DuplicateField(Field::LegacyDirKey));
                }
                match a {
                    Some(s) => {
                        if !check_hex_digest(s, 40) {
                            return Err(ParseError::InvalidDigest);
                        }
                        auth.legacy_dir_key = Some(own_bytes(s));
                        proof {
                            assert(spec_apply_g5(old(st)@, it@) == Ok::<AsmModel, ParseError>(
                                st@,
                            )) by {
                                assert(st@ =~= spec_apply_g5(old(st)@, it@)->Ok_0);
                            }
                        }
                        Ok(())
                    },
                    None => Err(ParseError::InvalidDigest),
                }
            },
        }
    } else if kw_eq(kwv, "shared-rand-participate") {
        if let Some(e) = vote_only_e(&st.doc.variant, Field::SharedRandParticipate) {
            return Err(e);
        }
        match &mut st.cur_auth {
            None => Err(ParseError::UnexpectedField(Field::SharedRandParticipate)),
            Some(auth) => {
                if auth.shared_rand_participate {
                    return Err(ParseError::DuplicateField(Field::SharedRandParticipate));
                }
                if a.is_some() {
                    return Err(ParseError::InvalidArgument);
                }
                auth.shared_rand_participate = true;
                proof {
                    assert(spec_apply_g5(old(st)@, it@) == Ok::<AsmModel, ParseError>(st@)) by {
                        assert(st@ =~= spec_apply_g5(old(st)@, it@)->Ok_0);
                    }
                }
                Ok(())
            },
        }
    } else if kw_eq(kwv, "shared-rand-commit") {
        if let Some(e) = vote_only_e(&st.doc.variant, Field::SharedRandCommit) {
            return Err(e);
        }
        match &mut st.cur_auth {
            None => Err(ParseError::UnexpectedField(Field::SharedRandCommit)),
            Some(auth) => {
                match a {
                    Some(s) => {
                        let ghost ov = auth.commits@;
                        auth.commits.push(own_bytes(s));
                        proof {
                            assert(auth.commits@.last()@ == it@.line.arguments->Some_0);
                            assert(vec_view(auth.commits@) =~~= vec_view(ov).push(
                                auth.commits@.last()@,
                            ));
                            assert(spec_apply_g5(old(st)@, it@) == Ok::<AsmModel, ParseError>(
                                st@,
                            )) by {
                                assert(st@ =~= spec_apply_g5(old(st)@, it@)->Ok_0);
                            }
                        }
                        Ok(())
                    },
                    None => Err(ParseError::InvalidArgument),
                }
            },
        }
    } else if kw_eq(kwv, "r") {
        if st.section == Section::Footer {
            return Err(ParseError::UnexpectedField(Field::RouterR));
        }
        match dec_r(a) {
            Ok(rt) => {
                proof {
                }
                flush_auth(st);
                match flush_router(st) {
                    Ok(()) => {
                        st.section = Section::Routers;
                        st.cur_router = Some(rt);
                        proof {
                            assert(spec_apply_g5(old(st)@, it@) == Ok::<AsmModel, ParseError>(
                                st@,
                            )) by {
                                assert(st@ =~= spec_apply_g5(old(st)@, it@)->Ok_0);
                            }
                        }
                        Ok(())
                    },
                    Err(e) => Err(e),
                }
            },
            Err(e) => Err(e),
        }
    } else if kw_eq(kwv, "a") {
        match &mut st.cur_router {
            None => Err(ParseError::UnexpectedField(Field::RouterA)),
            Some(rt) => {
                match a {
                    Some(s) => {
                        let ghost ov = rt.addresses@;
                        rt.addresses.push(own_bytes(s));
                        proof {
                            assert(rt.addresses@.last()@ == it@.line.arguments->Some_0);
                            assert(vec_view(rt.addresses@) =~~= vec_view(ov).push(
                                rt.addresses@.last()@,
                            ));
                            assert(spec_apply_g5(old(st)@, it@) == Ok::<AsmModel, ParseError>(
                                st@,
                            )) by {
                                assert(st@ =~= spec_apply_g5(old(st)@, it@)->Ok_0);
                            }
                        }
                        Ok(())
                    },
                    None => Err(ParseError::InvalidArgument),
                }
            },
        }
    } else if kw_eq(kwv, "s") {
        match &mut st.cur_router {
            None => Err(ParseError::UnexpectedField(Field::RouterS)),
            Some(rt) => {
                if rt.flags.is_some() {
                    return Err(ParseError::DuplicateField(Field::RouterS));
                }
                match dec_tokens(a, SP) {
                    Some(fs) => {
                        rt.flags = Some(fs);
                        proof {
                            assert(spec_apply_g5(old(st)@, it@) == Ok::<AsmModel, ParseError>(
                                st@,
                            )) by {
                                assert(st@ =~= spec_apply_g5(old(st)@, it@)->Ok_0);
                            }
                        }
                        Ok(())
                    },
                    None => Err(ParseError::InvalidArgument),
                }
            },
        }
    } else {
        apply_g6(st, it)
    }
}

/// Remaining per-router lines, executable side.
#[verifier::rlimit(100)]
#[verifier::spinoff_prover]
fn apply_g6(st: &mut AsmState, it: &crate::document::Item) -> (r: Result<(), ParseError>)
    ensures
        match r {
            Ok(()) => spec_apply_g6(old(st)@, it@) == Ok::<AsmModel, ParseError>(final(st)@),
            Err(e) => spec_apply_g6(old(st)@, it@) == Err::<AsmModel, ParseError>(e),
        },
{
    let kwv = &it.keyword_line.keyword.bytes;
    let a = &it.keyword_line.arguments;
    proof {
        assert(it@.line.keyword == kwv@);
        assert(it@.line.arguments == crate::model::opt_bytes_view(*a));
    }
    if kw_eq(kwv, "v") {
        match &mut st.cur_router {
            None => Err(ParseError::UnexpectedField(Field::RouterV)),
            Some(rt) => {
                if rt.version.is_some() {
                    return Err(ParseError::DuplicateField(Field::RouterV));
                }
                match a {
                    Some(s) => {
                        rt.version = Some(own_bytes(s));
                        proof {
                            assert(spec_apply_g6(old(st)@, it@) == Ok::<AsmModel, ParseError>(
                                st@,
                            )) by {
                                assert(st@ =~= spec_apply_g6(old(st)@, it@)->Ok_0);
                            }
                        }
                        Ok(())
                    },
                    None => Err(ParseError::InvalidArgument),
                }
            },
        }
    } else if kw_eq(kwv, "pr") {
        match &mut st.cur_router {
            None => Err(ParseError::UnexpectedField(Field::RouterPr)),
            Some(rt) => {
                if rt.protocols.is_some() {
                    return Err(ParseError::DuplicateField(Field::RouterPr));
                }
                match dec_protos(a) {
                    Some(ps) => {
                        rt.protocols = Some(ps);
                        proof {
                            assert(spec_apply_g6(old(st)@, it@) == Ok::<AsmModel, ParseError>(
                                st@,
                            )) by {
                                assert(st@ =~= spec_apply_g6(old(st)@, it@)->Ok_0);
                            }
                        }
                        Ok(())
                    },
                    None => Err(ParseError::InvalidArgument),
                }
            },
        }
    } else if kw_eq(kwv, "w") {
        match &mut st.cur_router {
            None => Err(ParseError::UnexpectedField(Field::RouterW)),
            Some(rt) => {
                if rt.bandwidth.is_some() {
                    return Err(ParseError::DuplicateField(Field::RouterW));
                }
                match dec_uint_params(a) {
                    Some(ws) => {
                        rt.bandwidth = Some(ws);
                        proof {
                            assert(spec_apply_g6(old(st)@, it@) == Ok::<AsmModel, ParseError>(
                                st@,
                            )) by {
                                assert(st@ =~= spec_apply_g6(old(st)@, it@)->Ok_0);
                            }
                        }
                        Ok(())
                    },
                    None => Err(ParseError::InvalidArgument),
                }
            },
        }
    } else if kw_eq(kwv, "p") {
        match &mut st.cur_router {
            None => Err(ParseError::UnexpectedField(Field::RouterP)),
            Some(rt) => {
                if rt.exit_policy.is_some() {
                    return Err(ParseError::DuplicateField(Field::RouterP));
                }
                match a {
                    Some(s) => {
                        let toks = split_on(s, SP);
                        if toks.len() != 2 {
                            return Err(ParseError::InvalidArgument);
                        }
                        proof {
                            assert(toks@[0]@ == spec_split_on(s@, SP)[0]);
                            assert(toks@[1]@ == spec_split_on(s@, SP)[1]);
                        }
                        let acc = kw_eq(&toks[0], "accept");
                        let rej = kw_eq(&toks[0], "reject");
                        if !(acc || rej) {
                            return Err(ParseError::InvalidArgument);
                        }
                        match parse_port_list(&toks[1]) {
                            Some(ps) => {
                                rt.exit_policy = Some((acc, ps));
                                proof {
                                    assert(spec_apply_g6(old(st)@, it@) == Ok::<
                                        AsmModel,
                                        ParseError,
                                    >(st@)) by {
                                        assert(st@ =~= spec_apply_g6(old(st)@, it@)->Ok_0);
                                    }
                                }
                                Ok(())
                            },
                            None => Err(ParseError::InvalidPortRange),
                        }
                    },
                    None => Err(ParseError::InvalidArgument),
                }
            },
        }
    } else if kw_eq(kwv, "m") {
        if let Some(e) = vote_only_e(&st.doc.variant, Field::RouterM) {
            return Err(e);
        }
        match &mut st.cur_router {
            None => Err(ParseError::UnexpectedField(Field::RouterM)),
            Some(rt) => {
                match a {
                    Some(s) => {
                        let ghost ov = rt.microdescs@;
                        rt.microdescs.push(own_bytes(s));
                        proof {
                            assert(rt.microdescs@.last()@ == it@.line.arguments->Some_0);
                            assert(vec_view(rt.microdescs@) =~~= vec_view(ov).push(
                                rt.microdescs@.last()@,
                            ));
                            assert(spec_apply_g6(old(st)@, it@) == Ok::<AsmModel, ParseError>(
                                st@,
                            )) by {
                                assert(st@ =~= spec_apply_g6(old(st)@, it@)->Ok_0);
                            }
                        }
                        Ok(())
                    },
                    None => Err(ParseError::InvalidArgument),
                }
            },
        }
    } else if kw_eq(kwv, "id") {
        if let Some(e) = vote_only_e(&st.doc.variant, Field::RouterId) {
            return Err(e);
        }
        match &mut st.cur_router {
            None => Err(ParseError::UnexpectedField(Field::RouterId)),
            Some(rt) => {
                if rt.ed_identity.is_some() {
                    return Err(ParseError::DuplicateField(Field::RouterId));
                }
                match a {
                    Some(s) => {
                        rt.ed_identity = Some(own_bytes(s));
                        proof {
                            assert(spec_apply_g6(old(st)@, it@) == Ok::<AsmModel, ParseError>(
                                st@,
                            )) by {
                                assert(st@ =~= spec_apply_g6(old(st)@, it@)->Ok_0);
                            }
                        }
                        Ok(())
                    },
                    None => Err(ParseError::InvalidArgument),
                }
            },
        }
    } else {
        apply_g7(st, it)
    }
}

/// Footer lines, executable side.
#[verifier::rlimit(100)]
#[verifier::spinoff_prover]
fn apply_g7(st: &mut AsmState, it: &crate::document::Item) -> (r: Result<(), ParseError>)
    ensures
        match r {
            Ok(()) => spec_apply_g7(old(st)@, it@) == Ok::<AsmModel, ParseError>(final(st)@),
            Err(e) => spec_apply_g7(old(st)@, it@) == Err::<AsmModel, ParseError>(e),
        },
{
    let kwv = &it.keyword_line.keyword.bytes;
    let a = &it.keyword_line.arguments;
    proof {
        assert(it@.line.keyword == kwv@);
        assert(it@.line.arguments == crate::model::opt_bytes_view(*a));
    }
    if kw_eq(kwv, "directory-footer") {
        if st.doc.has_footer {
            return Err(ParseError::DuplicateField(Field::DirectoryFooter));
        }
        if a.is_some() {
            return Err(ParseError::InvalidArgument);
        }
        proof {
        }
        flush_auth(st);
        match flush_router(st) {
            Ok(()) => {
                st.section = Section::Footer;
                st.doc.has_footer = true;
                proof {
                    assert(spec_apply_g7(old(st)@, it@) == Ok::<AsmModel, ParseError>(st@)) by {
                        assert(st@ =~= spec_apply_g7(old(st)@, it@)->Ok_0);
                    }
                }
                Ok(())
            },
            Err(e) => Err(e),
        }
    } else if kw_eq(kwv, "bandwidth-weights") {
        if let Some(e) = consensus_only_e(&st.doc.variant, Field::BandwidthWeights) {
            return Err(e);
        }
        if st.doc.bandwidth_weights.is_some() {
            return Err(ParseError::DuplicateField(Field::BandwidthWeights));
        }
        let ws: Vec<IntParam> = if a.is_none() {
            Vec::new()
        } else {
            match dec_int_params(a) {
                Some(ws) => ws,
                None => {
                    return Err(ParseError::InvalidArgument);
                },
            }
        };
        proof {
            if a is None {
                assert(vec_view(ws@) =~~= Seq::<IntParamModel>::empty());
            }
        }
        flush_auth(st);
        match flush_router(st) {
            Ok(()) => {
                st.section = Section::Footer;
                st.doc.bandwidth_weights = Some(ws);
                proof {
                    assert(spec_apply_g7(old(st)@, it@) == Ok::<AsmModel, ParseError>(st@)) by {
                        assert(st@ =~= spec_apply_g7(old(st)@, it@)->Ok_0);
                    }
                }
                Ok(())
            },
            Err(e) => Err(e),
        }
    } else if kw_eq(kwv, "directory-signature") {
        let is_vote = match &st.doc.variant {
            Some(Variant::Vote) => true,
            _ => false,
        };
        if is_vote && st.doc.signatures.len() >= 1 {
            return Err(ParseError::DuplicateField(Field::DirectorySignature));
        }
        match dec_signature(a) {
            Ok(sig) => {
                proof {
                }
                flush_auth(st);
                match flush_router(st) {
                    Ok(()) => {
                        st.section = Section::Footer;
                        let ghost ov = st.doc.signatures@;
                        st.doc.signatures.push(sig);
                        proof {
                            assert(st.doc.signatures@.last()@ == spec_dec_signature(
                                it@.line.arguments,
                            )->Ok_0);
                            assert(vec_view(st.doc.signatures@) =~~= vec_view(ov).push(
                                st.doc.signatures@.last()@,
                            ));
                            assert(spec_apply_g7(old(st)@, it@) == Ok::<AsmModel, ParseError>(
                                st@,
                            )) by {
                                assert(st@ =~= spec_apply_g7(old(st)@, it@)->Ok_0);
                            }
                        }
                        Ok(())
                    },
                    Err(e) => Err(e),
                }
            },
            Err(e) => Err(e),
        }
    } else {
        proof {
            assert(spec_apply_g7(old(st)@, it@) == Ok::<AsmModel, ParseError>(st@));
        }
        Ok(())
    }
}

/// Applies one item to the assembler state; returns exactly what
/// [`spec_apply_item`] says.
pub fn apply_item(st: &mut AsmState, it: &crate::document::Item) -> (r: Result<(), ParseError>)
    ensures
        match r {
            Ok(()) => spec_apply_item(old(st)@, it@) == Ok::<AsmModel, ParseError>(final(st)@),
            Err(e) => spec_apply_item(old(st)@, it@) == Err::<AsmModel, ParseError>(e),
        },
{
    let was = st.started;
    st.started = true;
    proof {
        assert(st@ =~= AsmModel { started: true, ..old(st)@ });
    }
    apply_g1(st, it, was)
}

/// The state every assembly starts from.
pub open spec fn init_asm() -> AsmModel {
    AsmModel {
        started: false,
        section: Section::Preamble,
        doc: crate::model::empty_doc(),
        cur_auth: None,
        cur_router: None,
    }
}

/// Folding the walk over an item run, stopping at the first error.
pub open spec fn spec_assemble_items(items: Seq<ItemModel>, st: AsmModel) -> Result<
    AsmModel,
    ParseError,
>
    decreases items.len(),
{
    if items.len() == 0 {
        Ok(st)
    } else {
        match spec_apply_item(st, items[0]) {
            Ok(st2) => spec_assemble_items(items.drop_first(), st2),
            Err(e) => Err(e),
        }
    }
}

/// The largest method in a vote's list (default 1).
pub open spec fn seq_max_u64(s: Seq<u64>) -> u64
    decreases s.len(),
{
    if s.len() == 0 {
        1
    } else {
        let r = seq_max_u64(s.drop_first());
        if s[0] >= r {
            s[0]
        } else {
            r
        }
    }
}

/// The consensus method that gates optional fields: a consensus names it
/// outright; a vote's is the largest method it supports; absent lines mean
/// method 1.
pub open spec fn effective_method(d: DocModel) -> u64 {
    match d.variant {
        Some(Variant::Consensus) => match d.consensus_method {
            Some(m) => m,
            None => 1,
        },
        _ => match d.consensus_methods {
            Some(ms) => seq_max_u64(ms),
            None => 1,
        },
    }
}

/// Whether any router entry carries an `a` line.
pub open spec fn any_router_address(d: DocModel) -> bool {
    exists|i: int| 0 <= i < d.routers.len() && (#[trigger] d.routers[i]).addresses.len() > 0
}

/// End of input: closes open entries, checks every exactly-once field, and
/// settles the deferred method gates (fields buffered during the walk are
/// checked once the method is finally known).
pub open spec fn spec_finish_asm(st: AsmModel) -> Result<DocModel, ParseError> {
    match flush_router_m(flush_auth_m(st)) {
        Err(e) => Err(e),
        Ok(st2) => {
            let d = st2.doc;
            if d.network_status_version is None {
                Err(ParseError::MissingField(Field::NetworkStatusVersion))
            } else if d.variant is None {
                Err(ParseError::MissingField(Field::VoteStatus))
            } else if d.variant == Some(Variant::Vote) && d.published is None {
                Err(ParseError::MissingField(Field::Published))
            } else if d.valid_after is None {
                Err(ParseError::MissingField(Field::ValidAfter))
            } else if d.fresh_until is None {
                Err(ParseError::MissingField(Field::FreshUntil))
            } else if d.valid_until is None {
                Err(ParseError::MissingField(Field::ValidUntil))
            } else if d.voting_delay is None {
                Err(ParseError::MissingField(Field::VotingDelay))
            } else if d.known_flags is None {
                Err(ParseError::MissingField(Field::KnownFlags))
            } else if d.signatures.len() == 0 {
                Err(ParseError::MissingField(Field::DirectorySignature))
            } else {
                let m = effective_method(d);
                if d.variant == Some(Variant::Consensus) && d.packages.len() > 0 && m < 19 {
                    Err(ParseError::UnexpectedField(Field::Package))
                } else if d.variant == Some(Variant::Consensus) && d.params is Some && m < 7 {
                    Err(ParseError::UnexpectedField(Field::Params))
                } else if any_router_address(d) && m < 14 {
                    Err(ParseError::UnexpectedField(Field::RouterA))
                } else if d.has_footer && m < 9 {
                    Err(ParseError::UnexpectedField(Field::DirectoryFooter))
                } else {
                    Ok(d)
                }
            }
        },
    }
}

/// What assembling a whole item run yields.
pub open spec fn spec_assemble(items: Seq<ItemModel>) -> Result<DocModel, ParseError> {
    match spec_assemble_items(items, init_asm()) {
        Ok(st) => spec_finish_asm(st),
        Err(e) => Err(e),
    }
}

/// Computes [`effective_method`].
pub fn compute_method(d: &ConsensusDocument) -> (r: u64)
    ensures
        r == effective_method(d@),
{
    match &d.variant {
        Some(Variant::Consensus) => match &d.consensus_method {
            Some(m) => *m,
            None => 1,
        },
        _ => match &d.consensus_methods {
            Some(ms) => {
                let mut best: u64 = 1;
                let mut i: usize = ms.len();
                proof {
                    assert(ms@.skip(i as int) =~= Seq::<u64>::empty());
                }
                while i > 0
                    invariant
                        0 <= i <= ms@.len(),
                        best == seq_max_u64(ms@.skip(i as int)),
                    decreases i,
                {
                    i = i - 1;
                    proof {
                        assert(ms@.skip(i as int)[0] == ms@[i as int]);
                        assert(ms@.skip(i as int).drop_first() =~= ms@.skip(i as int + 1));
                    }
                    if ms[i] >= best {
                        best = ms[i];
                    }
                }
                proof {
                    assert(ms@.skip(0) =~= ms@);
                }
                best
            },
            None => 1,
        },
    }
}

/// Computes [`any_router_address`].
fn has_router_address(d: &ConsensusDocument) -> (r: bool)
    ensures
        r == any_router_address(d@),
{
    let mut i: usize = 0;
    while i < d.routers.len()
        invariant
            0 <= i <= d.routers@.len(),
            forall|j: int| 0 <= j < i ==> (#[trigger] d@.routers[j]).addresses.len() == 0,
        decreases d.routers@.len() - i,
    {
        if d.routers[i].addresses.len() > 0 {
            proof {
                assert(d@.routers[i as int].addresses.len() > 0);
            }
            return true;
        }
        i = i + 1;
    }
    false
}

/// Assembles a parsed item stream into the typed document: returns exactly
/// what [`spec_assemble`] says.
#[verifier::loop_isolation(false)]
pub fn assemble(doc: &Document) -> (r: Result<ConsensusDocument, ParseError>)
    ensures
        match r {
            Ok(d) => spec_assemble(doc@) == Ok::<DocModel, ParseError>(d@),
            Err(e) => spec_assemble(doc@) == Err::<DocModel, ParseError>(e),
        },
{
    let ghost items = doc@;
    let mut st = AsmState {
        started: false,
        section: Section::Preamble,
        doc: ConsensusDocument::empty(),
        cur_auth: None,
        cur_router: None,
    };
    proof {
        assert(st@ =~= init_asm());
        assert(items.skip(0) =~~= items);
    }
    let mut i: usize = 0;
    while i < doc.items.len()
        invariant
            0 <= i <= doc.items@.len(),
            spec_assemble_items(items, init_asm()) == spec_assemble_items(
                items.skip(i as int),
                st@,
            ),
        decreases doc.items@.len() - i,
    {
        proof {
            assert(items.skip(i as int)[0] == items[i as int]);
            assert(items[i as int] == doc.items@[i as int]@);
            assert(items.skip(i as int).drop_first() =~~= items.skip(i as int + 1));
        }
        match apply_item(&mut st, &doc.items[i]) {
            Ok(()) => {},
            Err(e) => {
                return Err(e);
            },
        }
        i = i + 1;
    }
    proof {
        assert(items.skip(doc.items@.len() as int) =~~= Seq::<ItemModel>::empty());
    }
    // end of input: flush and check what must be present
    flush_auth(&mut st);
    let ghost st_flushed = flush_auth_m(st@);
    match flush_router(&mut st) {
        Ok(()) => {},
        Err(e) => {
            return Err(e);
        },
    }
    let d = st.doc;
    if d.network_status_version.is_none() {
        return Err(ParseError::MissingField(Field::NetworkStatusVersion));
    }
    if d.variant.is_none() {
        return Err(ParseError::MissingField(Field::VoteStatus));
    }
    let is_vote = match &d.variant {
        Some(Variant::Vote) => true,
        _ => false,
    };
    if is_vote && d.published.is_none() {
        return Err(ParseError::MissingField(Field::Published));
    }
    if d.valid_after.is_none() {
        return Err(ParseError::MissingField(Field::ValidAfter));
    }
    if d.fresh_until.is_none() {
        return Err(ParseError::MissingField(Field::FreshUntil));
    }
    if d.valid_until.is_none() {
        return Err(ParseError::MissingField(Field::ValidUntil));
    }
    if d.voting_delay.is_none() {
        return Err(ParseError::MissingField(Field::VotingDelay));
    }
    if d.known_flags.is_none() {
        return Err(ParseError::MissingField(Field::KnownFlags));
    }
    if d.signatures.len() == 0 {
        return Err(ParseError::MissingField(Field::DirectorySignature));
    }
    let m = compute_method(&d);
    let is_consensus = match &d.variant {
        Some(Variant::Consensus) => true,
        _ => false,
    };
    if is_consensus && d.packages.len() > 0 && m < 19 {
        return Err(ParseError::UnexpectedField(Field::Package));
    }
    if is_consensus && d.params.is_some() && m < 7 {
        return Err(ParseError::UnexpectedField(Field::Params));
    }
    if has_router_address(&d) && m < 14 {
        return Err(ParseError::UnexpectedField(Field::RouterA));
    }
    if d.has_footer && m < 9 {
        return Err(ParseError::UnexpectedField(Field::DirectoryFooter));
    }
    Ok(d)
}

} // verus!





