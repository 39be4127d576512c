//! Post-assembly validator: cross-item ordering and uniqueness rules,
//! checked over the fully built document.  Violations are collected, not
//! fail-fast, so a caller sees every defect of a malformed document at
//! once.

use vstd::prelude::*;

use crate::errors::ValidationError;
use crate::model::{ConsensusDocument, DocModel, Variant};
use crate::schema::{effective_method, kwb};

verus! {

/// The value a base64 character stands for, ordering identities as their
/// decoded digests would.
pub open spec fn b64val(b: u8) -> int {
    if 65 <= b && b <= 90 {
        b - 65
    } else if 97 <= b && b <= 122 {
        b - 97 + 26
    } else if 48 <= b && b <= 57 {
        b - 48 + 52
    } else if b == 43 {
        62
    } else {
        63
    }
}

/// Strict lexicographic order on base64 identity digests, by decoded
/// value.  Equal-length identities compare exactly as their decoded bytes
/// would.
pub open spec fn b64_lt(a: Seq<u8>, b: Seq<u8>) -> bool
    decreases a.len() + b.len(),
{
    if b.len() == 0 {
        false
    } else if a.len() == 0 {
        true
    } else if b64val(a[0]) < b64val(b[0]) {
        true
    } else if b64val(a[0]) > b64val(b[0]) {
        false
    } else {
        b64_lt(a.drop_first(), b.drop_first())
    }
}

/// Strict lexicographic order on ASCII byte strings.
pub open spec fn bytes_lt(a: Seq<u8>, b: Seq<u8>) -> bool
    decreases a.len() + b.len(),
{
    if b.len() == 0 {
        false
    } else if a.len() == 0 {
        true
    } else if a[0] < b[0] {
        true
    } else if a[0] > b[0] {
        false
    } else {
        bytes_lt(a.drop_first(), b.drop_first())
    }
}

/// `b64_lt` is transitive (with `a == b` impossible alongside `b64_lt` in
/// either direction, strict ascent over adjacent pairs orders the whole
/// list).
pub proof fn lemma_b64_lt_trans(a: Seq<u8>, b: Seq<u8>, c: Seq<u8>)
    requires
        b64_lt(a, b),
        b64_lt(b, c),
    ensures
        b64_lt(a, c),
    decreases a.len() + b.len() + c.len(),
{
    if c.len() == 0 || a.len() == 0 {
    } else if b.len() == 0 {
    } else {
        if b64val(a[0]) == b64val(b[0]) && b64val(b[0]) == b64val(c[0]) {
            lemma_b64_lt_trans(a.drop_first(), b.drop_first(), c.drop_first());
        }
    }
}

/// `bytes_lt` is transitive.
pub proof fn lemma_bytes_lt_trans(a: Seq<u8>, b: Seq<u8>, c: Seq<u8>)
    requires
        bytes_lt(a, b),
        bytes_lt(b, c),
    ensures
        bytes_lt(a, c),
    decreases a.len() + b.len() + c.len(),
{
    if c.len() == 0 || a.len() == 0 {
    } else if b.len() == 0 {
    } else {
        if a[0] == b[0] && b[0] == c[0] {
            lemma_bytes_lt_trans(a.drop_first(), b.drop_first(), c.drop_first());
        }
    }
}

/// `b64_lt` is irreflexive.
pub proof fn lemma_b64_lt_irrefl(a: Seq<u8>)
    ensures
        !b64_lt(a, a),
    decreases a.len(),
{
    if a.len() > 0 {
        lemma_b64_lt_irrefl(a.drop_first());
    }
}

/// `bytes_lt` is irreflexive.
pub proof fn lemma_bytes_lt_irrefl(a: Seq<u8>)
    ensures
        !bytes_lt(a, a),
    decreases a.len(),
{
    if a.len() > 0 {
        lemma_bytes_lt_irrefl(a.drop_first());
    }
}

/// Compares two byte tokens in plain lexicographic order.
pub fn bytes_lt_e(a: &Vec<u8>, b: &Vec<u8>) -> (r: bool)
    ensures
        r == bytes_lt(a@, b@),
    decreases a@.len(),
{
    let mut i: usize = 0;
    proof {
        assert(a@.skip(0) =~= a@);
        assert(b@.skip(0) =~= b@);
    }
    loop
        invariant
            0 <= i <= a@.len(),
            i <= b@.len(),
            forall|j: int| 0 <= j < i ==> a@[j] == b@[j],
            bytes_lt(a@, b@) == bytes_lt(a@.skip(i as int), b@.skip(i as int)),
        decreases a@.len() - i,
    {
        proof {
            if i < a@.len() {
                assert(a@.skip(i as int)[0] == a@[i as int]);
            }
            if i < b@.len() {
                assert(b@.skip(i as int)[0] == b@[i as int]);
            }
        }
        if i >= b.len() {
            return false;
        }
        if i >= a.len() {
            return true;
        }
        if a[i] < b[i] {
            return true;
        }
        if a[i] > b[i] {
            return false;
        }
        proof {
            assert(a@.skip(i as int).drop_first() =~= a@.skip(i as int + 1));
            assert(b@.skip(i as int).drop_first() =~= b@.skip(i as int + 1));
        }
        i = i + 1;
    }
}

/// Compares two base64 identities by decoded order.
pub fn b64_lt_e(a: &Vec<u8>, b: &Vec<u8>) -> (r: bool)
    ensures
        r == b64_lt(a@, b@),
{
    let mut i: usize = 0;
    proof {
        assert(a@.skip(0) =~= a@);
        assert(b@.skip(0) =~= b@);
    }
    loop
        invariant
            0 <= i <= a@.len(),
            i <= b@.len(),
            b64_lt(a@, b@) == b64_lt(a@.skip(i as int), b@.skip(i as int)),
        decreases a@.len() - i,
    {
        proof {
            if i < a@.len() {
                assert(a@.skip(i as int)[0] == a@[i as int]);
            }
            if i < b@.len() {
                assert(b@.skip(i as int)[0] == b@[i as int]);
            }
        }
        if i >= b.len() {
            return false;
        }
        if i >= a.len() {
            return true;
        }
        let va = b64val_e(a[i]);
        let vb = b64val_e(b[i]);
        if va < vb {
            return true;
        }
        if va > vb {
            return false;
        }
        proof {
            assert(a@.skip(i as int).drop_first() =~= a@.skip(i as int + 1));
            assert(b@.skip(i as int).drop_first() =~= b@.skip(i as int + 1));
        }
        i = i + 1;
    }
}

fn b64val_e(b: u8) -> (r: u8)
    ensures
        r == b64val(b),
{
    if 65 <= b && b <= 90 {
        b - 65
    } else if 97 <= b && b <= 122 {
        b - 97 + 26
    } else if 48 <= b && b <= 57 {
        b - 48 + 52
    } else if b == 43 {
        62
    } else {
        63
    }
}

/// Router status entries strictly ascending by identity digest.
pub open spec fn routers_sorted(d: DocModel) -> bool {
    forall|i: int|
        0 <= i < d.routers.len() - 1 ==> b64_lt(
            (#[trigger] d.routers[i]).identity,
            d.routers[i + 1].identity,
        )
}

/// A single flag set lexically ascending without duplicates.
pub open spec fn flag_set_sorted(fs: Seq<Seq<u8>>) -> bool {
    forall|i: int| 0 <= i < fs.len() - 1 ==> bytes_lt(#[trigger] fs[i], fs[i + 1])
}

/// Every flag set in the document — known-flags and each router's `s`
/// line — lexically ascending without duplicates.
pub open spec fn flags_sorted(d: DocModel) -> bool {
    &&& match d.known_flags {
        Some(fs) => flag_set_sorted(fs),
        None => true,
    }
    &&& forall|i: int|
        0 <= i < d.routers.len() ==> match (#[trigger] d.routers[i]).flags {
            Some(fs) => flag_set_sorted(fs),
            None => true,
        }
}

/// Package entries strictly ascending by (name, version).
pub open spec fn packages_sorted(d: DocModel) -> bool {
    forall|i: int|
        0 <= i < d.packages.len() - 1 ==> (bytes_lt(
            (#[trigger] d.packages[i]).name,
            d.packages[i + 1].name,
        ) || (d.packages[i].name == d.packages[i + 1].name && bytes_lt(
            d.packages[i].version,
            d.packages[i + 1].version,
        )))
}

/// Digest-type labels ascending within each package entry.
pub open spec fn package_digests_sorted(d: DocModel) -> bool {
    forall|i: int, j: int|
        0 <= i < d.packages.len() && 0 <= j < d.packages[i].digests.len() - 1 ==> bytes_lt(
            (#[trigger] d.packages[i].digests[j]).key,
            d.packages[i].digests[j + 1].key,
        )
}

/// A synthetic legacy-key entry: its nickname ends in `-legacy`.
pub open spec fn is_legacy_entry(nickname: Seq<u8>) -> bool {
    nickname.len() >= 7 && nickname.subrange(nickname.len() - 7, nickname.len() as int) == kwb(
        "-legacy",
    )
}

/// Consensus authority groups ascending by identity digest; a legacy entry
/// follows its primary and is left out of the order.
pub open spec fn authorities_sorted(d: DocModel) -> bool {
    forall|i: int|
        0 <= i < d.authorities.len() - 1 && !is_legacy_entry(
            (#[trigger] d.authorities[i]).nickname,
        ) && !is_legacy_entry(d.authorities[i + 1].nickname) ==> bytes_lt(
            d.authorities[i].identity,
            d.authorities[i + 1].identity,
        )
}

/// A `key=value` list with keys strictly ascending.
pub open spec fn int_params_sorted(ps: Seq<crate::model::IntParamModel>) -> bool {
    forall|i: int| 0 <= i < ps.len() - 1 ==> bytes_lt((#[trigger] ps[i]).key, ps[i + 1].key)
}

pub open spec fn raw_params_sorted(ps: Seq<crate::model::RawParamModel>) -> bool {
    forall|i: int| 0 <= i < ps.len() - 1 ==> bytes_lt((#[trigger] ps[i]).key, ps[i + 1].key)
}

/// Everything the validator checks, in reporting order.
pub open spec fn spec_validate(d: DocModel) -> Seq<ValidationError> {
    let s0 = Seq::<ValidationError>::empty();
    let s1 = if !routers_sorted(d) {
        s0.push(ValidationError::RouterOrder)
    } else {
        s0
    };
    let s2 = if !flags_sorted(d) {
        s1.push(ValidationError::FlagOrder)
    } else {
        s1
    };
    let s3 = if d.variant == Some(Variant::Consensus) && !packages_sorted(d) {
        s2.push(ValidationError::PackageOrder)
    } else {
        s2
    };
    let s4 = if d.variant == Some(Variant::Consensus) && !package_digests_sorted(d) {
        s3.push(ValidationError::PackageDigestOrder)
    } else {
        s3
    };
    let s5 = if d.variant == Some(Variant::Consensus) && !authorities_sorted(d) {
        s4.push(ValidationError::AuthorityOrder)
    } else {
        s4
    };
    let s6 = if !(match d.params {
        Some(ps) => int_params_sorted(ps),
        None => true,
    }) {
        s5.push(ValidationError::ParamOrder)
    } else {
        s5
    };
    let s7 = if !(match d.bandwidth_weights {
        Some(ps) => int_params_sorted(ps),
        None => true,
    }) {
        s6.push(ValidationError::WeightOrder)
    } else {
        s6
    };
    let s8 = if !(match d.flag_thresholds {
        Some(ps) => raw_params_sorted(ps),
        None => true,
    }) {
        s7.push(ValidationError::ThresholdOrder)
    } else {
        s7
    };
    let s9 = if effective_method(d) >= 9 && !d.has_footer {
        s8.push(ValidationError::MissingFooter)
    } else {
        s8
    };
    s9
}

/// A document is valid when the validator finds nothing.
pub open spec fn doc_valid(d: DocModel) -> bool {
    spec_validate(d).len() == 0
}

#[verifier::loop_isolation(false)]
fn check_routers_sorted(d: &ConsensusDocument) -> (r: bool)
    ensures
        r == routers_sorted(d@),
{
    let n = d.routers.len();
    if n < 2 {
        return true;
    }
    let mut i: usize = 0;
    while i < n - 1
        invariant
            0 <= i <= n - 1,
            forall|j: int|
                0 <= j < i ==> b64_lt((#[trigger] d@.routers[j]).identity, d@.routers[j + 1].identity),
        decreases n - 1 - i,
    {
        proof {
            assert(d@.routers[i as int] == d.routers@[i as int]@);
            assert(d@.routers[i as int + 1] == d.routers@[i as int + 1]@);
        }
        if !b64_lt_e(&d.routers[i].identity, &d.routers[i + 1].identity) {
            return false;
        }
        i = i + 1;
    }
    true
}

#[verifier::loop_isolation(false)]
fn check_flag_set(fs: &Vec<Vec<u8>>) -> (r: bool)
    ensures
        r == flag_set_sorted(crate::model::vec_view(fs@)),
{
    let n = fs.len();
    if n < 2 {
        return true;
    }
    let ghost v = crate::model::vec_view(fs@);
    let mut i: usize = 0;
    while i < n - 1
        invariant
            0 <= i <= n - 1,
            forall|j: int| 0 <= j < i ==> bytes_lt(#[trigger] v[j], v[j + 1]),
        decreases n - 1 - i,
    {
        proof {
            assert(v[i as int] == fs@[i as int]@);
            assert(v[i as int + 1] == fs@[i as int + 1]@);
        }
        if !bytes_lt_e(&fs[i], &fs[i + 1]) {
            return false;
        }
        i = i + 1;
    }
    true
}

#[verifier::loop_isolation(false)]
fn check_flags(d: &ConsensusDocument) -> (r: bool)
    ensures
        r == flags_sorted(d@),
{
    match &d.known_flags {
        Some(fs) => {
            if !check_flag_set(fs) {
                return false;
            }
        },
        None => {},
    }
    let mut i: usize = 0;
    while i < d.routers.len()
        invariant
            0 <= i <= d.routers@.len(),
            match d@.known_flags {
                Some(fs) => flag_set_sorted(fs),
                None => true,
            },
            forall|j: int|
                0 <= j < i ==> match (#[trigger] d@.routers[j]).flags {
                    Some(fs) => flag_set_sorted(fs),
                    None => true,
                },
        decreases d.routers@.len() - i,
    {
        proof {
            assert(d@.routers[i as int] == d.routers@[i as int]@);
        }
        match &d.routers[i].flags {
            Some(fs) => {
                if !check_flag_set(fs) {
                    return false;
                }
            },
            None => {},
        }
        i = i + 1;
    }
    true
}

#[verifier::loop_isolation(false)]
fn check_packages_sorted(d: &ConsensusDocument) -> (r: bool)
    ensures
        r == packages_sorted(d@),
{
    let n = d.packages.len();
    if n < 2 {
        return true;
    }
    let mut i: usize = 0;
    while i < n - 1
        invariant
            0 <= i <= n - 1,
            forall|j: int|
                0 <= j < i ==> (bytes_lt((#[trigger] d@.packages[j]).name, d@.packages[j + 1].name)
                    || (d@.packages[j].name == d@.packages[j + 1].name && bytes_lt(
                    d@.packages[j].version,
                    d@.packages[j + 1].version,
                ))),
        decreases n - 1 - i,
    {
        proof {
            assert(d@.packages[i as int] == d.packages@[i as int]@);
            assert(d@.packages[i as int + 1] == d.packages@[i as int + 1]@);
        }
        let names_lt = bytes_lt_e(&d.packages[i].name, &d.packages[i + 1].name);
        let names_eq = crate::grammar::bytes_eq(&d.packages[i].name, &d.packages[i + 1].name);
        let versions_lt = bytes_lt_e(&d.packages[i].version, &d.packages[i + 1].version);
        if !(names_lt || (names_eq && versions_lt)) {
            return false;
        }
        i = i + 1;
    }
    true
}

#[verifier::loop_isolation(false)]
fn check_package_digests(d: &ConsensusDocument) -> (r: bool)
    ensures
        r == package_digests_sorted(d@),
{
    let mut i: usize = 0;
    while i < d.packages.len()
        invariant
            0 <= i <= d.packages@.len(),
            forall|j: int, k: int|
                0 <= j < i && 0 <= k < d@.packages[j].digests.len() - 1 ==> bytes_lt(
                    (#[trigger] d@.packages[j].digests[k]).key,
                    d@.packages[j].digests[k + 1].key,
                ),
        decreases d.packages@.len() - i,
    {
        proof {
            assert(d@.packages[i as int] == d.packages@[i as int]@);
        }
        let ds = &d.packages[i].digests;
        let mut k: usize = 0;
        if ds.len() >= 2 {
            while k < ds.len() - 1
                invariant
                    0 <= k <= ds@.len() - 1,
                    ds@.len() >= 2,
                    forall|t: int|
                        0 <= t < k ==> bytes_lt(
                            (#[trigger] crate::model::vec_view(ds@)[t]).key,
                            crate::model::vec_view(ds@)[t + 1].key,
                        ),
                decreases ds@.len() - 1 - k,
            {
                proof {
                    assert(crate::model::vec_view(ds@)[k as int] == ds@[k as int]@);
                    assert(crate::model::vec_view(ds@)[k as int + 1] == ds@[k as int + 1]@);
                }
                if !bytes_lt_e(&ds[k].key, &ds[k + 1].key) {
                    proof {
                        assert(d@.packages[i as int].digests[k as int].key == ds@[k as int]@.key);
                        assert(d@.packages[i as int].digests[k as int + 1].key == ds@[k as int
                            + 1]@.key);
                    }
                    return false;
                }
                k = k + 1;
            }
        }
        proof {
            assert(forall|t: int|
                0 <= t < d@.packages[i as int].digests.len() - 1 ==> bytes_lt(
                    (#[trigger] d@.packages[i as int].digests[t]).key,
                    d@.packages[i as int].digests[t + 1].key,
                ));
        }
        i = i + 1;
    }
    true
}

/// Whether this authority entry is a synthetic legacy-key entry.
fn is_legacy_e(nickname: &Vec<u8>) -> (r: bool)
    ensures
        r == is_legacy_entry(nickname@),
{
    let suffix = "-legacy".as_bytes();
    let n = nickname.len();
    if n < 7 {
        return false;
    }
    let mut i: usize = 0;
    proof {
        reveal_strlit("-legacy");
        vstd::string::is_ascii_spec_bytes("-legacy");
        assert(suffix@ == kwb("-legacy"));
        assert(suffix@.len() == 7);
    }
    while i < 7
        invariant
            0 <= i <= 7,
            n == nickname@.len() >= 7,
            suffix@ == kwb("-legacy"),
            suffix@.len() == 7,
            forall|j: int| 0 <= j < i ==> nickname@[n - 7 + j] == suffix@[j],
        decreases 7 - i,
    {
        proof {
            vstd::string::is_ascii_spec_bytes("-legacy");
            reveal_strlit("-legacy");
        }
        if nickname[n - 7 + i] != suffix[i] {
            proof {
                assert(nickname@.subrange(n - 7, n as int)[i as int] == nickname@[n - 7 + i]);
            }
            return false;
        }
        i = i + 1;
    }
    proof {
        assert(nickname@.subrange(n - 7, n as int) =~= kwb("-legacy"));
    }
    true
}

#[verifier::loop_isolation(false)]
fn check_authorities_sorted(d: &ConsensusDocument) -> (r: bool)
    ensures
        r == authorities_sorted(d@),
{
    let n = d.authorities.len();
    if n < 2 {
        return true;
    }
    let mut i: usize = 0;
    while i < n - 1
        invariant
            0 <= i <= n - 1,
            forall|j: int|
                0 <= j < i && !is_legacy_entry((#[trigger] d@.authorities[j]).nickname)
                    && !is_legacy_entry(d@.authorities[j + 1].nickname) ==> bytes_lt(
                    d@.authorities[j].identity,
                    d@.authorities[j + 1].identity,
                ),
        decreases n - 1 - i,
    {
        proof {
            assert(d@.authorities[i as int] == d.authorities@[i as int]@);
            assert(d@.authorities[i as int + 1] == d.authorities@[i as int + 1]@);
        }
        let first_legacy = is_legacy_e(&d.authorities[i].nickname);
        let second_legacy = is_legacy_e(&d.authorities[i + 1].nickname);
        if !first_legacy && !second_legacy {
            if !bytes_lt_e(&d.authorities[i].identity, &d.authorities[i + 1].identity) {
                return false;
            }
        }
        i = i + 1;
    }
    true
}

#[verifier::loop_isolation(false)]
fn check_int_params_sorted(ps: &Vec<crate::model::IntParam>) -> (r: bool)
    ensures
        r == int_params_sorted(crate::model::vec_view(ps@)),
{
    let n = ps.len();
    if n < 2 {
        return true;
    }
    let ghost v = crate::model::vec_view(ps@);
    let mut i: usize = 0;
    while i < n - 1
        invariant
            0 <= i <= n - 1,
            forall|j: int| 0 <= j < i ==> bytes_lt((#[trigger] v[j]).key, v[j + 1].key),
        decreases n - 1 - i,
    {
        proof {
            assert(v[i as int] == ps@[i as int]@);
            assert(v[i as int + 1] == ps@[i as int + 1]@);
        }
        if !bytes_lt_e(&ps[i].key, &ps[i + 1].key) {
            return false;
        }
        i = i + 1;
    }
    true
}

#[verifier::loop_isolation(false)]
fn check_raw_params_sorted(ps: &Vec<crate::model::RawParam>) -> (r: bool)
    ensures
        r == raw_params_sorted(crate::model::vec_view(ps@)),
{
    let n = ps.len();
    if n < 2 {
        return true;
    }
    let ghost v = crate::model::vec_view(ps@);
    let mut i: usize = 0;
    while i < n - 1
        invariant
            0 <= i <= n - 1,
            forall|j: int| 0 <= j < i ==> bytes_lt((#[trigger] v[j]).key, v[j + 1].key),
        decreases n - 1 - i,
    {
        proof {
            assert(v[i as int] == ps@[i as int]@);
            assert(v[i as int + 1] == ps@[i as int + 1]@);
        }
        if !bytes_lt_e(&ps[i].key, &ps[i + 1].key) {
            return false;
        }
        i = i + 1;
    }
    true
}

/// Runs every cross-item check over the assembled document and collects
/// the violations: returns exactly [`spec_validate`] of the document.
pub fn validate(d: &ConsensusDocument) -> (r: Vec<ValidationError>)
    ensures
        r@ == spec_validate(d@),
{
    let mut out: Vec<ValidationError> = Vec::new();
    let is_consensus = match &d.variant {
        Some(Variant::Consensus) => true,
        _ => false,
    };
    if !check_routers_sorted(d) {
        out.push(ValidationError::RouterOrder);
    }
    if !check_flags(d) {
        out.push(ValidationError::FlagOrder);
    }
    if is_consensus && !check_packages_sorted(d) {
        out.push(ValidationError::PackageOrder);
    }
    if is_consensus && !check_package_digests(d) {
        out.push(ValidationError::PackageDigestOrder);
    }
    if is_consensus && !check_authorities_sorted(d) {
        out.push(ValidationError::AuthorityOrder);
    }
    let params_ok = match &d.params {
        Some(ps) => check_int_params_sorted(ps),
        None => true,
    };
    if !params_ok {
        out.push(ValidationError::ParamOrder);
    }
    let weights_ok = match &d.bandwidth_weights {
        Some(ps) => check_int_params_sorted(ps),
        None => true,
    };
    if !weights_ok {
        out.push(ValidationError::WeightOrder);
    }
    let thresholds_ok = match &d.flag_thresholds {
        Some(ps) => check_raw_params_sorted(ps),
        None => true,
    };
    if !thresholds_ok {
        out.push(ValidationError::ThresholdOrder);
    }
    let m = crate::schema::compute_method(d);
    if m >= 9 && !d.has_footer {
        out.push(ValidationError::MissingFooter);
    }
    proof {
        assert(out@ =~= spec_validate(d@));
    }
    out
}

/// Adjacent strict ascent orders any two positions of a flag set.
pub proof fn lemma_flag_set_pairwise(fs: Seq<Seq<u8>>, i: int, j: int)
    requires
        flag_set_sorted(fs),
        0 <= i < j < fs.len(),
    ensures
        bytes_lt(fs[i], fs[j]),
    decreases j - i,
{
    if j == i + 1 {
    } else {
        lemma_flag_set_pairwise(fs, i, j - 1);
        lemma_bytes_lt_trans(fs[i], fs[j - 1], fs[j]);
    }
}

/// Adjacent strict ascent orders any two router entries.
proof fn lemma_routers_pairwise(d: DocModel, i: int, j: int)
    requires
        routers_sorted(d),
        0 <= i < j < d.routers.len(),
    ensures
        b64_lt(d.routers[i].identity, d.routers[j].identity),
    decreases j - i,
{
    if j == i + 1 {
    } else {
        lemma_routers_pairwise(d, i, j - 1);
        lemma_b64_lt_trans(
            d.routers[i].identity,
            d.routers[j - 1].identity,
            d.routers[j].identity,
        );
    }
}

/// In a validated document, router status entries are strictly ascending
/// by identity digest, with no duplicate identity.
pub proof fn lemma_router_identities_strictly_ascending(d: DocModel)
    requires
        doc_valid(d),
    ensures
        forall|i: int, j: int|
            0 <= i < j < d.routers.len() ==> b64_lt(
                (#[trigger] d.routers[i]).identity,
                (#[trigger] d.routers[j]).identity,
            ),
        forall|i: int, j: int|
            0 <= i < j < d.routers.len() ==> (#[trigger] d.routers[i]).identity != (
            #[trigger] d.routers[j]).identity,
{
    assert(routers_sorted(d));
    assert forall|i: int, j: int| 0 <= i < j < d.routers.len() implies b64_lt(
        (#[trigger] d.routers[i]).identity,
        (#[trigger] d.routers[j]).identity,
    ) by {
        lemma_routers_pairwise(d, i, j);
    }
    assert forall|i: int, j: int| 0 <= i < j < d.routers.len() implies (
    #[trigger] d.routers[i]).identity != (#[trigger] d.routers[j]).identity by {
        lemma_routers_pairwise(d, i, j);
        lemma_b64_lt_irrefl(d.routers[i].identity);
    }
}

/// In a validated document, every flag set — the known-flags list and each
/// router's flags — is lexically ascending with no duplicate token.
pub proof fn lemma_flag_sets_strictly_ascending(d: DocModel, fs: Seq<Seq<u8>>)
    requires
        doc_valid(d),
        d.known_flags == Some(fs) || exists|r: int|
            0 <= r < d.routers.len() && (#[trigger] d.routers[r]).flags == Some(fs),
    ensures
        forall|i: int, j: int| 0 <= i < j < fs.len() ==> bytes_lt(#[trigger] fs[i], #[trigger] fs[j]),
        forall|i: int, j: int| 0 <= i < j < fs.len() ==> #[trigger] fs[i] != #[trigger] fs[j],
{
    assert(flags_sorted(d));
    assert(flag_set_sorted(fs)) by {
        if d.known_flags == Some(fs) {
        } else {
            let r = choose|r: int|
                0 <= r < d.routers.len() && (#[trigger] d.routers[r]).flags == Some(fs);
            assert(0 <= r < d.routers.len());
        }
    }
    assert forall|i: int, j: int| 0 <= i < j < fs.len() implies bytes_lt(
        #[trigger] fs[i],
        #[trigger] fs[j],
    ) by {
        lemma_flag_set_pairwise(fs, i, j);
    }
    assert forall|i: int, j: int| 0 <= i < j < fs.len() implies #[trigger] fs[i] != #[trigger] fs[j] by {
        lemma_flag_set_pairwise(fs, i, j);
        lemma_bytes_lt_irrefl(fs[i]);
    }
}

} // verus!

