//! The typed document model: what a vote or consensus means once the
//! generic item stream has been interpreted.  Exactly-once and at-most-once
//! fields are `Option`s; the assembler guarantees on success that every
//! exactly-once field is present (see [`crate::schema`]).

use vstd::prelude::*;

use crate::decoders::{Ipv4, PortRange, Timestamp};

verus! {

/// Deep view of a vector of viewable values.
pub open spec fn vec_view<T: View>(v: Seq<T>) -> Seq<T::V> {
    Seq::new(v.len(), |i: int| v[i]@)
}

/// Pushing commutes with the deep view.
pub proof fn lemma_vec_view_push<T: View>(v: Seq<T>, x: T)
    ensures
        vec_view(v.push(x)) == vec_view(v).push(x@),
{
    assert(vec_view(v.push(x)) =~= vec_view(v).push(x@));
}

/// The two document variants.
#[derive(Debug, Clone, Copy, PartialEq, Eq, Structural)]
pub enum Variant {
    Vote,
    Consensus,
}

/// A `key=value` pair with a signed 32-bit value (params, weights).
#[derive(Debug, Clone, PartialEq, Eq)]
pub struct IntParam {
    pub key: Vec<u8>,
    pub value: i64,
}

#[verifier::ext_equal]
pub ghost struct IntParamModel {
    pub key: Seq<u8>,
    pub value: i64,
}

impl View for IntParam {
    type V = IntParamModel;

    open spec fn view(&self) -> IntParamModel {
        IntParamModel { key: self.key@, value: self.value }
    }
}

/// A `key=value` pair with an unsigned value (`w` lines).
#[derive(Debug, Clone, PartialEq, Eq)]
pub struct UintParam {
    pub key: Vec<u8>,
    pub value: u64,
}

#[verifier::ext_equal]
pub ghost struct UintParamModel {
    pub key: Seq<u8>,
    pub value: u64,
}

impl View for UintParam {
    type V = UintParamModel;

    open spec fn view(&self) -> UintParamModel {
        UintParamModel { key: self.key@, value: self.value }
    }
}

/// A `key=value` pair whose value is kept as validated bytes (thresholds,
/// package digests).
#[derive(Debug, Clone, PartialEq, Eq)]
pub struct RawParam {
    pub key: Vec<u8>,
    pub value: Vec<u8>,
}

#[verifier::ext_equal]
pub ghost struct RawParamModel {
    pub key: Seq<u8>,
    pub value: Seq<u8>,
}

impl View for RawParam {
    type V = RawParamModel;

    open spec fn view(&self) -> RawParamModel {
        RawParamModel { key: self.key@, value: self.value@ }
    }
}

/// One `package` line: name, version, url, and its digest labels.
#[derive(Debug, Clone, PartialEq, Eq)]
pub struct Package {
    pub name: Vec<u8>,
    pub version: Vec<u8>,
    pub url: Vec<u8>,
    pub digests: Vec<RawParam>,
}

#[verifier::ext_equal]
pub ghost struct PackageModel {
    pub name: Seq<u8>,
    pub version: Seq<u8>,
    pub url: Seq<u8>,
    pub digests: Seq<RawParamModel>,
}

impl View for Package {
    type V = PackageModel;

    open spec fn view(&self) -> PackageModel {
        PackageModel {
            name: self.name@,
            version: self.version@,
            url: self.url@,
            digests: vec_view(self.digests@),
        }
    }
}

/// One `Name=Ranges` protocol entry.
#[derive(Debug, Clone, PartialEq, Eq)]
pub struct ProtoEntry {
    pub name: Vec<u8>,
    pub ranges: Vec<(u64, u64)>,
}

#[verifier::ext_equal]
pub ghost struct ProtoEntryModel {
    pub name: Seq<u8>,
    pub ranges: Seq<(u64, u64)>,
}

impl View for ProtoEntry {
    type V = ProtoEntryModel;

    open spec fn view(&self) -> ProtoEntryModel {
        ProtoEntryModel { name: self.name@, ranges: self.ranges@ }
    }
}

/// A shared-random value: reveal count plus the opaque base64 blob.
#[derive(Debug, Clone, PartialEq, Eq)]
pub struct SharedRandValue {
    pub num_reveals: u64,
    pub value: Vec<u8>,
}

#[verifier::ext_equal]
pub ghost struct SharedRandValueModel {
    pub num_reveals: u64,
    pub value: Seq<u8>,
}

impl View for SharedRandValue {
    type V = SharedRandValueModel;

    open spec fn view(&self) -> SharedRandValueModel {
        SharedRandValueModel { num_reveals: self.num_reveals, value: self.value@ }
    }
}

/// One directory authority's entry (a consensus groups one per authority;
/// legacy-key authorities contribute a synthetic extra entry).
#[derive(Debug, Clone, PartialEq, Eq)]
pub struct Authority {
    pub nickname: Vec<u8>,
    /// Forty upper-case hex digits.
    pub identity: Vec<u8>,
    pub address: Vec<u8>,
    pub ip: Ipv4,
    pub dirport: u16,
    pub orport: u16,
    pub contact: Option<Vec<u8>>,
    pub vote_digest: Option<Vec<u8>>,
    pub legacy_dir_key: Option<Vec<u8>>,
    pub shared_rand_participate: bool,
    /// Raw `shared-rand-commit` argument lines, kept as given.
    pub commits: Vec<Vec<u8>>,
}

#[verifier::ext_equal]
pub ghost struct AuthorityModel {
    pub nickname: Seq<u8>,
    pub identity: Seq<u8>,
    pub address: Seq<u8>,
    pub ip: Ipv4,
    pub dirport: u16,
    pub orport: u16,
    pub contact: Option<Seq<u8>>,
    pub vote_digest: Option<Seq<u8>>,
    pub legacy_dir_key: Option<Seq<u8>>,
    pub shared_rand_participate: bool,
    pub commits: Seq<Seq<u8>>,
}

pub open spec fn opt_bytes_view(o: Option<Vec<u8>>) -> Option<Seq<u8>> {
    match o {
        Some(v) => Some(v@),
        None => None,
    }
}

impl View for Authority {
    type V = AuthorityModel;

    open spec fn view(&self) -> AuthorityModel {
        AuthorityModel {
            nickname: self.nickname@,
            identity: self.identity@,
            address: self.address@,
            ip: self.ip,
            dirport: self.dirport,
            orport: self.orport,
            contact: opt_bytes_view(self.contact),
            vote_digest: opt_bytes_view(self.vote_digest),
            legacy_dir_key: opt_bytes_view(self.legacy_dir_key),
            shared_rand_participate: self.shared_rand_participate,
            commits: vec_view(self.commits@),
        }
    }
}

/// One relay's status entry.
#[derive(Debug, Clone, PartialEq, Eq)]
pub struct RouterStatusEntry {
    pub nickname: Vec<u8>,
    /// Base64 identity digest, trailing `=` stripped (27 characters).
    pub identity: Vec<u8>,
    /// Base64 descriptor digest, trailing `=` stripped (27 characters).
    pub digest: Vec<u8>,
    pub published: Timestamp,
    pub ip: Ipv4,
    pub orport: u16,
    pub dirport: u16,
    /// Raw `a` line arguments (IPv6 addresses), kept as given.
    pub addresses: Vec<Vec<u8>>,
    pub flags: Option<Vec<Vec<u8>>>,
    pub version: Option<Vec<u8>>,
    pub protocols: Option<Vec<ProtoEntry>>,
    pub bandwidth: Option<Vec<UintParam>>,
    /// `p` line: accept (`true`) or reject, and the port ranges.
    pub exit_policy: Option<(bool, Vec<PortRange>)>,
    /// Raw `m` line arguments (vote only), kept as given.
    pub microdescs: Vec<Vec<u8>>,
    /// Raw `id` line arguments (vote only).
    pub ed_identity: Option<Vec<u8>>,
}

#[verifier::ext_equal]
pub ghost struct RouterModel {
    pub nickname: Seq<u8>,
    pub identity: Seq<u8>,
    pub digest: Seq<u8>,
    pub published: Timestamp,
    pub ip: Ipv4,
    pub orport: u16,
    pub dirport: u16,
    pub addresses: Seq<Seq<u8>>,
    pub flags: Option<Seq<Seq<u8>>>,
    pub version: Option<Seq<u8>>,
    pub protocols: Option<Seq<ProtoEntryModel>>,
    pub bandwidth: Option<Seq<UintParamModel>>,
    pub exit_policy: Option<(bool, Seq<PortRange>)>,
    pub microdescs: Seq<Seq<u8>>,
    pub ed_identity: Option<Seq<u8>>,
}

impl View for RouterStatusEntry {
    type V = RouterModel;

    open spec fn view(&self) -> RouterModel {
        RouterModel {
            nickname: self.nickname@,
            identity: self.identity@,
            digest: self.digest@,
            published: self.published,
            ip: self.ip,
            orport: self.orport,
            dirport: self.dirport,
            addresses: vec_view(self.addresses@),
            flags: match self.flags {
                Some(f) => Some(vec_view(f@)),
                None => None,
            },
            version: opt_bytes_view(self.version),
            protocols: match self.protocols {
                Some(p) => Some(vec_view(p@)),
                None => None,
            },
            bandwidth: match self.bandwidth {
                Some(b) => Some(vec_view(b@)),
                None => None,
            },
            exit_policy: match self.exit_policy {
                Some(e) => Some((e.0, e.1@)),
                None => None,
            },
            microdescs: vec_view(self.microdescs@),
            ed_identity: opt_bytes_view(self.ed_identity),
        }
    }
}

/// One `directory-signature` line: optional algorithm, the signing
/// authority's identity digest, and its signing-key digest (both hex).
#[derive(Debug, Clone, PartialEq, Eq)]
pub struct DirectorySignature {
    pub algorithm: Option<Vec<u8>>,
    pub identity: Vec<u8>,
    pub signing_key_digest: Vec<u8>,
}

#[verifier::ext_equal]
pub ghost struct SignatureModel {
    pub algorithm: Option<Seq<u8>>,
    pub identity: Seq<u8>,
    pub signing_key_digest: Seq<u8>,
}

impl View for DirectorySignature {
    type V = SignatureModel;

    open spec fn view(&self) -> SignatureModel {
        SignatureModel {
            algorithm: opt_bytes_view(self.algorithm),
            identity: self.identity@,
            signing_key_digest: self.signing_key_digest@,
        }
    }
}

/// The fully assembled document.  On successful assembly every
/// exactly-once field is `Some` (see the assembler's contract); the
/// validator then checks the cross-item ordering rules.
#[derive(Debug, Clone, PartialEq, Eq)]
pub struct ConsensusDocument {
    pub network_status_version: Option<u64>,
    pub variant: Option<Variant>,
    pub consensus_methods: Option<Vec<u64>>,
    pub consensus_method: Option<u64>,
    pub published: Option<Timestamp>,
    pub valid_after: Option<Timestamp>,
    pub fresh_until: Option<Timestamp>,
    pub valid_until: Option<Timestamp>,
    pub voting_delay: Option<(u64, u64)>,
    pub client_versions: Option<Vec<Vec<u8>>>,
    pub server_versions: Option<Vec<Vec<u8>>>,
    pub packages: Vec<Package>,
    pub known_flags: Option<Vec<Vec<u8>>>,
    pub flag_thresholds: Option<Vec<RawParam>>,
    pub recommended_client_protocols: Option<Vec<ProtoEntry>>,
    pub recommended_relay_protocols: Option<Vec<ProtoEntry>>,
    pub required_client_protocols: Option<Vec<ProtoEntry>>,
    pub required_relay_protocols: Option<Vec<ProtoEntry>>,
    pub params: Option<Vec<IntParam>>,
    pub shared_rand_previous: Option<SharedRandValue>,
    pub shared_rand_current: Option<SharedRandValue>,
    pub authorities: Vec<Authority>,
    pub routers: Vec<RouterStatusEntry>,
    pub has_footer: bool,
    pub bandwidth_weights: Option<Vec<IntParam>>,
    pub signatures: Vec<DirectorySignature>,
}

#[verifier::ext_equal]
pub ghost struct DocModel {
    pub network_status_version: Option<u64>,
    pub variant: Option<Variant>,
    pub consensus_methods: Option<Seq<u64>>,
    pub consensus_method: Option<u64>,
    pub published: Option<Timestamp>,
    pub valid_after: Option<Timestamp>,
    pub fresh_until: Option<Timestamp>,
    pub valid_until: Option<Timestamp>,
    pub voting_delay: Option<(u64, u64)>,
    pub client_versions: Option<Seq<Seq<u8>>>,
    pub server_versions: Option<Seq<Seq<u8>>>,
    pub packages: Seq<PackageModel>,
    pub known_flags: Option<Seq<Seq<u8>>>,
    pub flag_thresholds: Option<Seq<RawParamModel>>,
    pub recommended_client_protocols: Option<Seq<ProtoEntryModel>>,
    pub recommended_relay_protocols: Option<Seq<ProtoEntryModel>>,
    pub required_client_protocols: Option<Seq<ProtoEntryModel>>,
    pub required_relay_protocols: Option<Seq<ProtoEntryModel>>,
    pub params: Option<Seq<IntParamModel>>,
    pub shared_rand_previous: Option<SharedRandValueModel>,
    pub shared_rand_current: Option<SharedRandValueModel>,
    pub authorities: Seq<AuthorityModel>,
    pub routers: Seq<RouterModel>,
    pub has_footer: bool,
    pub bandwidth_weights: Option<Seq<IntParamModel>>,
    pub signatures: Seq<SignatureModel>,
}

pub open spec fn opt_names_view(o: Option<Vec<Vec<u8>>>) -> Option<Seq<Seq<u8>>> {
    match o {
        Some(v) => Some(vec_view(v@)),
        None => None,
    }
}

pub open spec fn opt_protos_view(o: Option<Vec<ProtoEntry>>) -> Option<Seq<ProtoEntryModel>> {
    match o {
        Some(v) => Some(vec_view(v@)),
        None => None,
    }
}

pub open spec fn opt_params_view(o: Option<Vec<IntParam>>) -> Option<Seq<IntParamModel>> {
    match o {
        Some(v) => Some(vec_view(v@)),
        None => None,
    }
}

pub open spec fn opt_srv_view(o: Option<SharedRandValue>) -> Option<SharedRandValueModel> {
    match o {
        Some(v) => Some(v@),
        None => None,
    }
}

impl View for ConsensusDocument {
    type V = DocModel;

    open spec fn view(&self) -> DocModel {
        DocModel {
            network_status_version: self.network_status_version,
            variant: self.variant,
            consensus_methods: match self.consensus_methods {
                Some(v) => Some(v@),
                None => None,
            },
            consensus_method: self.consensus_method,
            published: self.published,
            valid_after: self.valid_after,
            fresh_until: self.fresh_until,
            valid_until: self.valid_until,
            voting_delay: self.voting_delay,
            client_versions: opt_names_view(self.client_versions),
            server_versions: opt_names_view(self.server_versions),
            packages: vec_view(self.packages@),
            known_flags: opt_names_view(self.known_flags),
            flag_thresholds: match self.flag_thresholds {
                Some(v) => Some(vec_view(v@)),
                None => None,
            },
            recommended_client_protocols: opt_protos_view(self.recommended_client_protocols),
            recommended_relay_protocols: opt_protos_view(self.recommended_relay_protocols),
            required_client_protocols: opt_protos_view(self.required_client_protocols),
            required_relay_protocols: opt_protos_view(self.required_relay_protocols),
            params: opt_params_view(self.params),
            shared_rand_previous: opt_srv_view(self.shared_rand_previous),
            shared_rand_current: opt_srv_view(self.shared_rand_current),
            authorities: vec_view(self.authorities@),
            routers: vec_view(self.routers@),
            has_footer: self.has_footer,
            bandwidth_weights: opt_params_view(self.bandwidth_weights),
            signatures: vec_view(self.signatures@),
        }
    }
}

impl ConsensusDocument {
    /// The empty document every assembly starts from.
    pub fn empty() -> (r: Self)
        ensures
            r@ == empty_doc(),
    {
        let d = ConsensusDocument {
            network_status_version: None,
            variant: None,
            consensus_methods: None,
            consensus_method: None,
            published: None,
            valid_after: None,
            fresh_until: None,
            valid_until: None,
            voting_delay: None,
            client_versions: None,
            server_versions: None,
            packages: Vec::new(),
            known_flags: None,
            flag_thresholds: None,
            recommended_client_protocols: None,
            recommended_relay_protocols: None,
            required_client_protocols: None,
            required_relay_protocols: None,
            params: None,
            shared_rand_previous: None,
            shared_rand_current: None,
            authorities: Vec::new(),
            routers: Vec::new(),
            has_footer: false,
            bandwidth_weights: None,
            signatures: Vec::new(),
        };
        proof {
            assert(d@ =~~= empty_doc());
        }
        d
    }
}

/// The model of the empty document.
pub open spec fn empty_doc() -> DocModel {
    DocModel {
        network_status_version: None,
        variant: None,
        consensus_methods: None,
        consensus_method: None,
        published: None,
        valid_after: None,
        fresh_until: None,
        valid_until: None,
        voting_delay: None,
        client_versions: None,
        server_versions: None,
        packages: Seq::empty(),
        known_flags: None,
        flag_thresholds: None,
        recommended_client_protocols: None,
        recommended_relay_protocols: None,
        required_client_protocols: None,
        required_relay_protocols: None,
        params: None,
        shared_rand_previous: None,
        shared_rand_current: None,
        authorities: Seq::empty(),
        routers: Seq::empty(),
        has_footer: false,
        bandwidth_weights: None,
        signatures: Seq::empty(),
    }
}

} // verus!
