//! Content metadata: the convergence-policy tag a family carries.
//!
//! Metadata is stored on every node; the genesis node's tag decides which
//! merge policy reconciles concurrent heads. An absent tag falls back to
//! last-write-wins. The canonical encoding is a CBOR map: empty when no
//! tag is set, else a single `policy_type` entry.

use vstd::prelude::*;
use crate::codec::{
    enc_map, enc_str, push_header, push_str, parse_map, parse_str, expect_key, str_eq,
    lemma_prefix_split, lemma_skip_skip,
};

verus! {

/// Built-in and custom convergence policy types.
#[derive(Clone, Debug)]
pub enum PolicyType {
    /// Last-write-wins.
    Lww,
    /// Any non-builtin policy, identified by its name.
    Custom(String),
}

/// The name a policy type goes by.
pub open spec fn policy_name(p: PolicyType) -> Seq<char> {
    match p {
        PolicyType::Lww => "lww"@,
        PolicyType::Custom(name) => name@,
    }
}

/// Two policy types with the same shape and name.
pub open spec fn policy_eq(a: PolicyType, b: PolicyType) -> bool {
    match (a, b) {
        (PolicyType::Lww, PolicyType::Lww) => true,
        (PolicyType::Custom(x), PolicyType::Custom(y)) => x@ == y@,
        _ => false,
    }
}

impl PolicyType {
    /// Reads a policy type from its name; the name of the built-in policy
    /// yields the built-in, never a custom tag.
    pub fn from_name(value: &str) -> (r: PolicyType)
        ensures
            policy_name(r) == value@,
            value@ == "lww"@ ==> r is Lww,
            value@ != "lww"@ ==> (r matches PolicyType::Custom(n) && n@ == value@),
    {
        if str_eq(value, "lww") {
            PolicyType::Lww
        } else {
            PolicyType::Custom(value.to_owned())
        }
    }
}

impl PolicyType {
    /// A copy of the policy type with the same name.
    pub fn duplicate(&self) -> (r: PolicyType)
        ensures
            r == *self,
    {
        match self {
            PolicyType::Lww => PolicyType::Lww,
            PolicyType::Custom(name) => PolicyType::Custom(name.clone()),
        }
    }
}

impl PartialEq for PolicyType {
    fn eq(&self, other: &Self) -> (r: bool) {
        match (self, other) {
            (PolicyType::Lww, PolicyType::Lww) => true,
            (PolicyType::Custom(x), PolicyType::Custom(y)) => str_eq(x.as_str(), y.as_str()),
            _ => false,
        }
    }
}

impl vstd::std_specs::cmp::PartialEqSpecImpl for PolicyType {
    open spec fn obeys_eq_spec() -> bool {
        true
    }

    open spec fn eq_spec(&self, other: &Self) -> bool {
        policy_eq(*self, *other)
    }
}

/// Metadata that stores what the convergence machinery needs. An unset
/// policy falls back to last-write-wins.
#[derive(Clone, Debug)]
pub struct ContentMetadata {
    pub policy_type: Option<PolicyType>,
}

/// Two metadata values with the same tag.
pub open spec fn meta_eq(a: ContentMetadata, b: ContentMetadata) -> bool {
    match (a.policy_type, b.policy_type) {
        (None, None) => true,
        (Some(x), Some(y)) => policy_eq(x, y),
        _ => false,
    }
}

/// A custom tag never spells the built-in policy's name: `from_name`
/// normalizes that spelling, and the canonical encoding depends on it.
pub open spec fn wf_metadata(m: ContentMetadata) -> bool {
    m.policy_type matches Some(PolicyType::Custom(n)) ==> n@ != "lww"@
}

/// Canonical encoding: an empty map, or one `policy_type` entry.
pub open spec fn enc_metadata(m: ContentMetadata) -> Seq<u8> {
    match m.policy_type {
        None => enc_map(0),
        Some(p) => enc_map(1) + (enc_str("policy_type"@) + enc_str(policy_name(p))),
    }
}

impl PartialEq for ContentMetadata {
    fn eq(&self, other: &Self) -> (r: bool) {
        match (&self.policy_type, &other.policy_type) {
            (Option::None, Option::None) => true,
            (Option::Some(x), Option::Some(y)) => *x == *y,
            _ => false,
        }
    }
}

impl vstd::std_specs::cmp::PartialEqSpecImpl for ContentMetadata {
    open spec fn obeys_eq_spec() -> bool {
        true
    }

    open spec fn eq_spec(&self, other: &Self) -> bool {
        meta_eq(*self, *other)
    }
}

impl ContentMetadata {
    /// A copy of the metadata with the same tag.
    pub fn duplicate(&self) -> (r: ContentMetadata)
        ensures
            r == *self,
    {
        ContentMetadata {
            policy_type: match &self.policy_type {
                Option::None => None,
                Option::Some(p) => Some(p.duplicate()),
            },
        }
    }

    /// Metadata with the default last-write-wins policy.
    pub fn new() -> (r: ContentMetadata)
        ensures
            r.policy_type is None,
            wf_metadata(r),
    {
        ContentMetadata { policy_type: None }
    }

    /// Metadata that uses the policy of the given name.
    pub fn with_policy(policy_name_text: &str) -> (r: ContentMetadata)
        ensures
            r.policy_type matches Some(p) && policy_name(p) == policy_name_text@,
            wf_metadata(r),
    {
        ContentMetadata { policy_type: Some(PolicyType::from_name(policy_name_text)) }
    }

    /// The configured policy name; falls back to the built-in when no tag
    /// is set.
    pub fn policy_type(&self) -> (r: String)
        ensures
            r@ == self.policy_name_spec(),
    {
        match &self.policy_type {
            Option::Some(PolicyType::Custom(name)) => name.clone(),
            _ => "lww".to_owned(),
        }
    }

    /// The policy name the metadata resolves to.
    pub open spec fn policy_name_spec(&self) -> Seq<char> {
        match self.policy_type {
            Some(PolicyType::Custom(name)) => name@,
            _ => "lww"@,
        }
    }
}

impl Default for ContentMetadata {
    fn default() -> (r: ContentMetadata)
        ensures
            r.policy_type is None,
            wf_metadata(r),
    {
        ContentMetadata { policy_type: None }
    }
}

/// Appends the canonical encoding of the metadata.
pub fn push_metadata(out: &mut Vec<u8>, m: &ContentMetadata)
    ensures
        final(out)@ == old(out)@ + enc_metadata(*m),
{
    match &m.policy_type {
        Option::None => {
            push_header(out, 5, 0);
            proof {
                assert(out@ =~= old(out)@ + enc_metadata(*m));
            }
        },
        Option::Some(p) => {
            push_header(out, 5, 1);
            push_str(out, "policy_type");
            match p {
                PolicyType::Lww => push_str(out, "lww"),
                PolicyType::Custom(name) => push_str(out, name.as_str()),
            }
            proof {
                assert(out@ =~= old(out)@ + enc_metadata(*m));
            }
        },
    }
}

/// Parses a canonical metadata map: wherever the buffer continues with the
/// encoding of a well-formed metadata value, exactly that value comes
/// back.
pub fn parse_metadata(buf: &Vec<u8>, i: usize) -> (r: Option<(ContentMetadata, usize)>)
    requires
        i <= buf@.len(),
    ensures
        forall|m: ContentMetadata|
            wf_metadata(m) && (#[trigger] enc_metadata(m)).is_prefix_of(buf@.skip(i as int))
                ==> (r matches Some(p) && meta_eq(p.0, m) && wf_metadata(p.0) && p.1 == i
                + enc_metadata(m).len()),
        r matches Some(p) ==> i < p.1 <= buf@.len() && wf_metadata(p.0),
{
    match parse_map(buf, i) {
        Some((count, j)) => {
            if count == 0 {
                let r = Some((ContentMetadata { policy_type: None }, j));
                proof {
                    assert forall|m: ContentMetadata|
                        wf_metadata(m) && (#[trigger] enc_metadata(m)).is_prefix_of(
                            buf@.skip(i as int),
                        ) implies (r matches Some(p) && meta_eq(p.0, m) && wf_metadata(p.0) && p.1
                        == i + enc_metadata(m).len()) by {
                        lemma_metadata_parts(buf@, i as int, m);
                    };
                }
                r
            } else if count == 1 {
                match expect_key(buf, j, "policy_type") {
                    Some(k) => {
                        match parse_str(buf, k) {
                            Some((name, e)) => {
                                let policy = PolicyType::from_name(name.as_str());
                                let r = Some(
                                    (ContentMetadata { policy_type: Some(policy) }, e),
                                );
                                proof {
                                    assert forall|m: ContentMetadata|
                                        wf_metadata(m) && (#[trigger] enc_metadata(m)).is_prefix_of(
                                            buf@.skip(i as int),
                                        ) implies (r matches Some(p) && meta_eq(p.0, m)
                                        && wf_metadata(p.0) && p.1 == i + enc_metadata(
                                        m,
                                    ).len()) by {
                                        lemma_metadata_parts(buf@, i as int, m);
                                        vstd::std_specs::vec::axiom_spec_len(buf);
                                        match m.policy_type {
                                            Option::None => {
                                                assert(enc_map(0).is_prefix_of(
                                                    buf@.skip(i as int),
                                                ));
                                                assert(false);
                                            },
                                            Option::Some(pp) => {
                                                assert(enc_map(1).is_prefix_of(
                                                    buf@.skip(i as int),
                                                ));
                                                assert(j as int == i + enc_map(1).len());
                                                assert(enc_str("policy_type"@).is_prefix_of(
                                                    buf@.skip(j as int),
                                                ));
                                                assert(j + enc_str("policy_type"@).len()
                                                    <= buf@.len());
                                                assert(j + enc_str("policy_type"@).len()
                                                    <= buf@.len());
                                        assert(k as int == j + enc_str(
                                                    "policy_type"@,
                                                ).len());
                                                assert(enc_str(policy_name(pp)).is_prefix_of(
                                                    buf@.skip(k as int),
                                                ));
                                                assert(name@ == policy_name(pp));
                                                assert(e as int == k + enc_str(
                                                    policy_name(pp),
                                                ).len());
                                            },
                                        }
                                    };
                                }
                                r
                            },
                            None => {
                                proof {
                                    assert forall|m: ContentMetadata|
                                        wf_metadata(m) && (#[trigger] enc_metadata(m)).is_prefix_of(
                                            buf@.skip(i as int),
                                        ) implies false by {
                                        lemma_metadata_parts(buf@, i as int, m);
                                        vstd::std_specs::vec::axiom_spec_len(buf);
                                        match m.policy_type {
                                            Option::None => {
                                                assert(enc_map(0).is_prefix_of(
                                                    buf@.skip(i as int),
                                                ));
                                            },
                                            Option::Some(pp) => {
                                                assert(j as int == i + enc_map(1).len());
                                                assert(enc_str("policy_type"@).is_prefix_of(
                                                    buf@.skip(j as int),
                                                ));
                                                assert(j + enc_str("policy_type"@).len()
                                                    <= buf@.len());
                                                assert(j + enc_str("policy_type"@).len()
                                                    <= buf@.len());
                                        assert(k as int == j + enc_str(
                                                    "policy_type"@,
                                                ).len());
                                                assert(enc_str(policy_name(pp)).is_prefix_of(
                                                    buf@.skip(k as int),
                                                ));
                                            },
                                        }
                                    };
                                }
                                None
                            },
                        }
                    },
                    None => {
                        proof {
                            assert forall|m: ContentMetadata|
                                wf_metadata(m) && (#[trigger] enc_metadata(m)).is_prefix_of(
                                    buf@.skip(i as int),
                                ) implies false by {
                                lemma_metadata_parts(buf@, i as int, m);
                                vstd::std_specs::vec::axiom_spec_len(buf);
                                match m.policy_type {
                                    Option::None => {
                                        assert(enc_map(0).is_prefix_of(buf@.skip(i as int)));
                                    },
                                    Option::Some(pp) => {
                                        assert(j as int == i + enc_map(1).len());
                                        assert(enc_str("policy_type"@).is_prefix_of(
                                            buf@.skip(j as int),
                                        ));
                                    },
                                }
                            };
                        }
                        None
                    },
                }
            } else {
                proof {
                    assert forall|m: ContentMetadata|
                        wf_metadata(m) && (#[trigger] enc_metadata(m)).is_prefix_of(
                            buf@.skip(i as int),
                        ) implies false by {
                        lemma_metadata_parts(buf@, i as int, m);
                        match m.policy_type {
                            Option::None => {
                                assert(enc_map(0).is_prefix_of(buf@.skip(i as int)));
                            },
                            Option::Some(pp) => {
                                assert(enc_map(1).is_prefix_of(buf@.skip(i as int)));
                            },
                        }
                    };
                }
                None
            }
        },
        None => None,
    }
}

/// From a metadata prefix: where its map header, key and name sit in the
/// buffer.
proof fn lemma_metadata_parts(s: Seq<u8>, i: int, m: ContentMetadata)
    requires
        0 <= i <= s.len(),
        enc_metadata(m).is_prefix_of(s.skip(i)),
    ensures
        m.policy_type is None ==> enc_map(0).is_prefix_of(s.skip(i)),
        m.policy_type matches Some(p) ==> {
            &&& enc_map(1).is_prefix_of(s.skip(i))
            &&& enc_str("policy_type"@).is_prefix_of(s.skip(i + enc_map(1).len()))
            &&& enc_str(policy_name(p)).is_prefix_of(
                s.skip(i + enc_map(1).len() + enc_str("policy_type"@).len()),
            )
            &&& i + enc_metadata(m).len() == i + enc_map(1).len() + enc_str("policy_type"@).len()
                + enc_str(policy_name(p)).len()
        },
{
    match m.policy_type {
        None => {},
        Some(p) => {
            let a = enc_map(1);
            let b = enc_str("policy_type"@);
            let c = enc_str(policy_name(p));
            lemma_prefix_split(s.skip(i), a, b + c);
            lemma_skip_skip(s, i, a.len() as int);
            lemma_prefix_split(s.skip(i + a.len()), b, c);
            lemma_skip_skip(s, i + a.len(), b.len() as int);
        },
    }
}

/// Two metadata values that both repeat a third agree with each other.
pub proof fn lemma_meta_eq_joint(a: ContentMetadata, b: ContentMetadata, c: ContentMetadata)
    requires
        meta_eq(a, c),
        meta_eq(b, c),
    ensures
        meta_eq(a, b),
{
    match (a.policy_type, b.policy_type, c.policy_type) {
        (Some(pa), Some(pb), Some(pc)) => {
            assert(policy_eq(pa, pc));
            assert(policy_eq(pb, pc));
        },
        _ => {},
    }
}

/// Two well-formed metadata encodings starting at the same place carry
/// the same tag.
pub proof fn lemma_enc_metadata_unique(s: Seq<u8>, m1: ContentMetadata, m2: ContentMetadata)
    requires
        s.len() < 0x10000000000000000,
        wf_metadata(m1),
        wf_metadata(m2),
        enc_metadata(m1).is_prefix_of(s),
        enc_metadata(m2).is_prefix_of(s),
    ensures
        meta_eq(m1, m2),
        enc_metadata(m1) == enc_metadata(m2),
{
    match (m1.policy_type, m2.policy_type) {
        (None, None) => {},
        (Some(p1), Some(p2)) => {
            lemma_metadata_parts(s, 0, m1);
            lemma_metadata_parts(s, 0, m2);
            let off = enc_map(1).len() + enc_str("policy_type"@).len();
            crate::codec::lemma_enc_str_unique(s.skip(off as int), policy_name(p1), policy_name(p2));
            match (p1, p2) {
                (PolicyType::Lww, PolicyType::Custom(n2)) => {
                    assert(n2@ == "lww"@);
                },
                (PolicyType::Custom(n1), PolicyType::Lww) => {
                    assert(n1@ == "lww"@);
                },
                _ => {},
            }
            assert(enc_metadata(m1) =~= enc_metadata(m2));
        },
        (None, Some(p2)) => {
            assert(enc_map(0)[0] == s[0]);
            assert(enc_map(1)[0] == s[0]);
        },
        (Some(p1), None) => {
            assert(enc_map(0)[0] == s[0]);
            assert(enc_map(1)[0] == s[0]);
        },
    }
}

} // verus!
