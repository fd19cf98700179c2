//! The security parameters record and its wire codec.

use vstd::prelude::*;
use vstd::slice::slice_to_vec;

use crate::ber;

verus! {

/// The length of the all-zero authentication parameters placeholder.
pub const AUTH_PARAMS_PLACEHOLDER_LEN: usize = 12;

/// The fixed placeholder installed where the real authentication digest is
/// not yet known: twelve zero octets.
pub open spec fn auth_params_placeholder() -> Seq<u8> {
    Seq::new(AUTH_PARAMS_PLACEHOLDER_LEN as nat, |i: int| 0u8)
}

/// The mathematical value of a [`SecurityParams`] record: its six fields as
/// plain sequences and integers.
pub ghost struct SecurityParamsView {
    pub engine_id: Seq<u8>,
    pub engine_boots: int,
    pub engine_time: int,
    pub username: Seq<u8>,
    pub auth_params: Seq<u8>,
    pub priv_params: Seq<u8>,
}

impl SecurityParamsView {
    /// The record's invariant: both anti-replay counters are non-negative
    /// 32-bit values.
    pub open spec fn wf(self) -> bool {
        &&& 0 <= self.engine_boots <= i32::MAX
        &&& 0 <= self.engine_time <= i32::MAX
    }
}

/// The error a failed decoding surfaces. All structural parse failures and
/// the negative-counter violation are reported uniformly.
#[derive(Clone, Copy, Debug, PartialEq, Eq, Hash, Structural)]
pub enum SecurityError {
    MalformedSecurityParams,
}

/// The result of an operation that can fail with a [`SecurityError`].
pub type SecurityResult<T> = Result<T, SecurityError>;

/// Security parameters used by the User-based Security Model: the
/// authoritative engine's identity and anti-replay counters, the user's
/// name, and the authentication and privacy parameter byte strings.
///
/// A record is created empty ([`SecurityParams::new`] or
/// [`SecurityParams::discovery`]) or by decoding incoming bytes
/// ([`SecurityParams::decode`]); builder-style setters replace single
/// fields; [`SecurityParams::encode`] serializes the record.
#[derive(Clone, Debug, PartialEq, Eq, Hash)]
pub struct SecurityParams {
    engine_id: Vec<u8>,
    engine_boots: i32,
    engine_time: i32,
    username: Vec<u8>,
    auth_params: Vec<u8>,
    priv_params: Vec<u8>,
}

impl View for SecurityParams {
    type V = SecurityParamsView;

    closed spec fn view(&self) -> SecurityParamsView {
        SecurityParamsView {
            engine_id: self.engine_id@,
            engine_boots: self.engine_boots as int,
            engine_time: self.engine_time as int,
            username: self.username@,
            auth_params: self.auth_params@,
            priv_params: self.priv_params@,
        }
    }
}

impl SecurityParams {
    /// Whether the record satisfies its invariant. Every record the public
    /// interface produces does.
    pub open spec fn wf(&self) -> bool {
        self@.wf()
    }

    /// Returns empty security parameters: all byte fields of zero length and
    /// both counters zero. Alias for [`SecurityParams::discovery`].
    pub fn new() -> (r: Self)
        ensures
            r@ == discovery_view(),
            r.wf(),
    {
        Self::discovery()
    }

    /// Returns empty security parameters: all byte fields of zero length and
    /// both counters zero.
    ///
    /// Discovery requires a non-authoritative engine to learn the
    /// authoritative engine's ID before real security values can be
    /// computed; these empty parameters are the ones a discovery message
    /// carries.
    pub fn discovery() -> (r: Self)
        ensures
            r@ == discovery_view(),
            r.wf(),
    {
        SecurityParams {
            engine_id: Vec::new(),
            engine_boots: 0,
            engine_time: 0,
            username: Vec::new(),
            auth_params: Vec::new(),
            priv_params: Vec::new(),
        }
    }

    /// Returns the authoritative engine's ID.
    pub fn engine_id(&self) -> (r: &[u8])
        ensures
            r@ == self@.engine_id,
    {
        self.engine_id.as_slice()
    }

    /// Returns the authoritative engine's boots counter.
    pub fn engine_boots(&self) -> (r: i32)
        ensures
            r == self@.engine_boots,
    {
        self.engine_boots
    }

    /// Returns the authoritative engine's time counter.
    pub fn engine_time(&self) -> (r: i32)
        ensures
            r == self@.engine_time,
    {
        self.engine_time
    }

    /// Returns the username.
    pub fn username(&self) -> (r: &[u8])
        ensures
            r@ == self@.username,
    {
        self.username.as_slice()
    }

    /// Returns the authentication parameters.
    pub fn auth_params(&self) -> (r: &[u8])
        ensures
            r@ == self@.auth_params,
    {
        self.auth_params.as_slice()
    }

    /// Returns the privacy parameters: the salt the scoped payload's
    /// encryption uses.
    pub fn priv_params(&self) -> (r: &[u8])
        ensures
            r@ == self@.priv_params,
    {
        self.priv_params.as_slice()
    }

    /// Sets the authoritative engine's ID, fully replacing the prior bytes.
    pub fn set_engine_id(&mut self, engine_id: &[u8]) -> (r: &mut Self)
        ensures
            (*r)@ == (SecurityParamsView { engine_id: engine_id@, ..old(self)@ }),
            *final(self) == *final(r),
    {
        self.engine_id = slice_to_vec(engine_id);
        self
    }

    /// Sets the authoritative engine's boots counter. A negative value is
    /// clamped: it is stored as zero, silently.
    pub fn set_engine_boots(&mut self, engine_boots: i32) -> (r: &mut Self)
        ensures
            (*r)@ == (SecurityParamsView {
                engine_boots: if engine_boots < 0 { 0 } else { engine_boots as int },
                ..old(self)@
            }),
            *final(self) == *final(r),
    {
        self.engine_boots = if engine_boots < 0 { 0 } else { engine_boots };
        self
    }

    /// Sets the authoritative engine's time counter. A negative value is
    /// clamped: it is stored as zero, silently.
    pub fn set_engine_time(&mut self, engine_time: i32) -> (r: &mut Self)
        ensures
            (*r)@ == (SecurityParamsView {
                engine_time: if engine_time < 0 { 0 } else { engine_time as int },
                ..old(self)@
            }),
            *final(self) == *final(r),
    {
        self.engine_time = if engine_time < 0 { 0 } else { engine_time };
        self
    }

    /// Sets the username, fully replacing the prior bytes.
    pub fn set_username(&mut self, username: &[u8]) -> (r: &mut Self)
        ensures
            (*r)@ == (SecurityParamsView { username: username@, ..old(self)@ }),
            *final(self) == *final(r),
    {
        self.username = slice_to_vec(username);
        self
    }

    /// Sets the authentication parameters, fully replacing the prior bytes.
    pub fn set_auth_params(&mut self, auth_params: &[u8]) -> (r: &mut Self)
        ensures
            (*r)@ == (SecurityParamsView { auth_params: auth_params@, ..old(self)@ }),
            *final(self) == *final(r),
    {
        self.auth_params = slice_to_vec(auth_params);
        self
    }

    /// Installs the authentication parameters placeholder: twelve zero
    /// octets, standing in until the real digest is computed downstream.
    pub fn set_auth_params_placeholder(&mut self) -> (r: &mut Self)
        ensures
            (*r)@ == (SecurityParamsView {
                auth_params: auth_params_placeholder(),
                ..old(self)@
            }),
            *final(self) == *final(r),
    {
        let mut placeholder: Vec<u8> = Vec::new();
        let mut i: usize = 0;
        while i < AUTH_PARAMS_PLACEHOLDER_LEN
            invariant
                i <= AUTH_PARAMS_PLACEHOLDER_LEN,
                placeholder@ == Seq::new(i as nat, |k: int| 0u8),
            decreases AUTH_PARAMS_PLACEHOLDER_LEN - i,
        {
            placeholder.push(0u8);
            proof {
                assert(placeholder@ =~= Seq::new((i + 1) as nat, |k: int| 0u8));
            }
            i += 1;
        }
        self.auth_params = placeholder;
        self
    }

    /// Sets the privacy parameters, fully replacing the prior bytes.
    pub fn set_priv_params(&mut self, priv_params: &[u8]) -> (r: &mut Self)
        ensures
            (*r)@ == (SecurityParamsView { priv_params: priv_params@, ..old(self)@ }),
            *final(self) == *final(r),
    {
        self.priv_params = slice_to_vec(priv_params);
        self
    }

    /// Encodes the security parameters as a DER SEQUENCE of the six fields
    /// in fixed order: engine ID, engine boots, engine time, username,
    /// authentication parameters, privacy parameters.
    ///
    /// Encoding never fails: the record's invariant guarantees both counters
    /// are non-negative, and the byte fields need no validation. Identical
    /// field values always produce identical bytes.
    pub fn encode(&self) -> (r: Vec<u8>)
        requires
            self.wf(),
        ensures
            r@ == spec_encode(self@),
    {
        let mut payload: Vec<u8> = Vec::new();
        ber::push_octet_string(&mut payload, self.engine_id.as_slice());
        ber::push_i32_nonneg(&mut payload, self.engine_boots);
        ber::push_i32_nonneg(&mut payload, self.engine_time);
        ber::push_octet_string(&mut payload, self.username.as_slice());
        ber::push_octet_string(&mut payload, self.auth_params.as_slice());
        ber::push_octet_string(&mut payload, self.priv_params.as_slice());
        proof {
            assert(payload@ =~= spec_payload(self@));
        }
        let mut out: Vec<u8> = Vec::new();
        out.push(ber::TAG_SEQUENCE);
        ber::push_len(&mut out, payload.len());
        out.append(&mut payload);
        proof {
            assert(out@ =~= spec_encode(self@));
        }
        out
    }

    /// Decodes incoming security parameters from an untrusted byte string.
    ///
    /// The input must be a well-formed SEQUENCE of exactly the six fields of
    /// [`SecurityParams::encode`], spanning the whole input. Any structural,
    /// tag or length error fails uniformly with
    /// [`SecurityError::MalformedSecurityParams`]; so does a structurally
    /// valid SEQUENCE whose boots or time counter is negative. Unlike the
    /// clamping setters, decoding rejects such wire data instead of
    /// repairing it: no partial or coerced record is ever produced.
    pub fn decode(buf: &[u8]) -> (r: SecurityResult<Self>)
        ensures
            buf@.len() == 0 ==> r is Err,
            match spec_parse(buf@) {
                None => r == Err::<SecurityParams, SecurityError>(
                    SecurityError::MalformedSecurityParams,
                ),
                Some(m) => {
                    if m.engine_boots < 0 || m.engine_time < 0 {
                        r == Err::<SecurityParams, SecurityError>(
                            SecurityError::MalformedSecurityParams,
                        )
                    } else {
                        r matches Ok(sp) && sp@ == m && sp.wf()
                    }
                },
            },
    {
        if buf.len() == 0 {
            return Err(SecurityError::MalformedSecurityParams);
        }
        if buf[0] != ber::TAG_SEQUENCE {
            return Err(SecurityError::MalformedSecurityParams);
        }
        let (n, j) = match ber::read_len(buf, 1) {
            None => {
                return Err(SecurityError::MalformedSecurityParams);
            },
            Some(x) => x,
        };
        if j + n != buf.len() {
            return Err(SecurityError::MalformedSecurityParams);
        }
        let (engine_id, p) = match ber::read_octet_string(buf, j) {
            None => {
                return Err(SecurityError::MalformedSecurityParams);
            },
            Some(x) => x,
        };
        let (engine_boots, p) = match ber::read_i32_field(buf, p) {
            None => {
                return Err(SecurityError::MalformedSecurityParams);
            },
            Some(x) => x,
        };
        let (engine_time, p) = match ber::read_i32_field(buf, p) {
            None => {
                return Err(SecurityError::MalformedSecurityParams);
            },
            Some(x) => x,
        };
        let (username, p) = match ber::read_octet_string(buf, p) {
            None => {
                return Err(SecurityError::MalformedSecurityParams);
            },
            Some(x) => x,
        };
        let (auth_params, p) = match ber::read_octet_string(buf, p) {
            None => {
                return Err(SecurityError::MalformedSecurityParams);
            },
            Some(x) => x,
        };
        let (priv_params, p) = match ber::read_octet_string(buf, p) {
            None => {
                return Err(SecurityError::MalformedSecurityParams);
            },
            Some(x) => x,
        };
        if p != buf.len() {
            return Err(SecurityError::MalformedSecurityParams);
        }
        if engine_boots < 0 || engine_time < 0 {
            return Err(SecurityError::MalformedSecurityParams);
        }
        Ok(
            SecurityParams {
                engine_id,
                engine_boots,
                engine_time,
                username,
                auth_params,
                priv_params,
            },
        )
    }
}

/// The contents octets of the encoded SEQUENCE: the six fields in fixed
/// order, each as its own tag-length-value encoding.
pub open spec fn spec_payload(m: SecurityParamsView) -> Seq<u8> {
    ber::spec_octet_string(m.engine_id) + ber::spec_integer(m.engine_boots) + ber::spec_integer(
        m.engine_time,
    ) + ber::spec_octet_string(m.username) + ber::spec_octet_string(m.auth_params)
        + ber::spec_octet_string(m.priv_params)
}

/// The full canonical encoding of a record: a DER SEQUENCE holding the six
/// fields in fixed order.
pub open spec fn spec_encode(m: SecurityParamsView) -> Seq<u8> {
    ber::spec_tlv(ber::TAG_SEQUENCE, spec_payload(m))
}

/// Reads the six fields in fixed order starting at position `i`, demanding
/// that they end exactly at the end of the buffer. The counters are returned
/// as read: a negative counter is structurally valid here and is rejected by
/// the caller.
pub open spec fn spec_parse_fields(buf: Seq<u8>, i: int) -> Option<SecurityParamsView> {
    match ber::spec_parse_octet_string(buf, i) {
        None => None,
        Some((engine_id, i)) => match ber::spec_parse_i32(buf, i) {
            None => None,
            Some((engine_boots, i)) => match ber::spec_parse_i32(buf, i) {
                None => None,
                Some((engine_time, i)) => match ber::spec_parse_octet_string(buf, i) {
                    None => None,
                    Some((username, i)) => match ber::spec_parse_octet_string(buf, i) {
                        None => None,
                        Some((auth_params, i)) => match ber::spec_parse_octet_string(buf, i) {
                            None => None,
                            Some((priv_params, i)) => {
                                if i == buf.len() {
                                    Some(
                                        SecurityParamsView {
                                            engine_id,
                                            engine_boots,
                                            engine_time,
                                            username,
                                            auth_params,
                                            priv_params,
                                        },
                                    )
                                } else {
                                    None
                                }
                            },
                        },
                    },
                },
            },
        },
    }
}

/// The structural parse of a whole byte string: a SEQUENCE whose contents
/// octets span the rest of the input and hold exactly the six fields. The
/// counters are as read from the wire and may still be negative.
pub open spec fn spec_parse(buf: Seq<u8>) -> Option<SecurityParamsView> {
    if buf.len() == 0 || buf[0] != ber::TAG_SEQUENCE {
        None
    } else {
        match ber::spec_parse_len(buf, 1) {
            None => None,
            Some((n, j)) => {
                if j + n != buf.len() {
                    None
                } else {
                    spec_parse_fields(buf, j)
                }
            },
        }
    }
}

/// The payload splits back into the six encodings it concatenates, each at
/// its fixed offset.
#[verifier::rlimit(100)]
proof fn lemma_payload_parts(m: SecurityParamsView)
    ensures
        ({
            let t1 = ber::spec_octet_string(m.engine_id);
            let t2 = ber::spec_integer(m.engine_boots);
            let t3 = ber::spec_integer(m.engine_time);
            let t4 = ber::spec_octet_string(m.username);
            let t5 = ber::spec_octet_string(m.auth_params);
            let t6 = ber::spec_octet_string(m.priv_params);
            let pl = spec_payload(m);
            let o2 = t1.len() as int;
            let o3 = o2 + t2.len();
            let o4 = o3 + t3.len();
            let o5 = o4 + t4.len();
            let o6 = o5 + t5.len();
            let o7 = o6 + t6.len();
            &&& pl.len() == o7
            &&& pl.subrange(0, o2) == t1
            &&& pl.subrange(o2, o3) == t2
            &&& pl.subrange(o3, o4) == t3
            &&& pl.subrange(o4, o5) == t4
            &&& pl.subrange(o5, o6) == t5
            &&& pl.subrange(o6, o7) == t6
        }),
{
    let t1 = ber::spec_octet_string(m.engine_id);
    let t2 = ber::spec_integer(m.engine_boots);
    let t3 = ber::spec_integer(m.engine_time);
    let t4 = ber::spec_octet_string(m.username);
    let t5 = ber::spec_octet_string(m.auth_params);
    let t6 = ber::spec_octet_string(m.priv_params);
    let p2 = t1 + t2;
    let p3 = p2 + t3;
    let p4 = p3 + t4;
    let p5 = p4 + t5;
    let pl = spec_payload(m);
    assert(pl == p5 + t6);
    ber::lemma_concat_parts(p5, t6);
    ber::lemma_concat_parts(p4, t5);
    ber::lemma_concat_parts(p3, t4);
    ber::lemma_concat_parts(p2, t3);
    ber::lemma_concat_parts(t1, t2);
    ber::lemma_slice_of_slice(pl, 0, 0, p4, p5);
    ber::lemma_slice_of_slice(pl, 0, 0, p3, p4);
    ber::lemma_slice_of_slice(pl, 0, 0, p2, p3);
    ber::lemma_slice_of_slice(pl, 0, p4.len() as int, t5, p5);
    ber::lemma_slice_of_slice(pl, 0, p3.len() as int, t4, p4);
    ber::lemma_slice_of_slice(pl, 0, p2.len() as int, t3, p3);
    ber::lemma_slice_of_slice(pl, 0, t1.len() as int, t2, p2);
    ber::lemma_slice_of_slice(pl, 0, 0, t1, p2);
}

/// The six fields of the encoding read back, in order, as the values
/// written, ending exactly at the end of the encoding.
#[verifier::rlimit(100)]
proof fn lemma_encode_fields_parse(m: SecurityParamsView)
    requires
        m.wf(),
        m.engine_id.len() <= usize::MAX,
        m.username.len() <= usize::MAX,
        m.auth_params.len() <= usize::MAX,
        m.priv_params.len() <= usize::MAX,
    ensures
        ({
            let pl = spec_payload(m);
            let o1 = 1 + ber::spec_len_octets(pl.len()).len() as int;
            spec_parse_fields(spec_encode(m), o1) == Some(m)
        }),
{
    let t1 = ber::spec_octet_string(m.engine_id);
    let t2 = ber::spec_integer(m.engine_boots);
    let t3 = ber::spec_integer(m.engine_time);
    let t4 = ber::spec_octet_string(m.username);
    let t5 = ber::spec_octet_string(m.auth_params);
    let t6 = ber::spec_octet_string(m.priv_params);
    let pl = spec_payload(m);
    let lo = ber::spec_len_octets(pl.len());
    let buf = spec_encode(m);
    assert(buf == seq![ber::TAG_SEQUENCE] + lo + pl);
    ber::lemma_pow256_values();
    ber::lemma_min_be_len_le(m.engine_id.len(), 8);
    ber::lemma_min_be_len_le(m.username.len(), 8);
    ber::lemma_min_be_len_le(m.auth_params.len(), 8);
    ber::lemma_min_be_len_le(m.priv_params.len(), 8);
    let o1 = 1 + lo.len() as int;
    let o2 = o1 + t1.len();
    let o3 = o2 + t2.len();
    let o4 = o3 + t3.len();
    let o5 = o4 + t4.len();
    let o6 = o5 + t5.len();
    let o7 = o6 + t6.len();
    lemma_payload_parts(m);
    assert(o7 == buf.len());
    ber::lemma_concat_parts(seq![ber::TAG_SEQUENCE] + lo, pl);
    assert(buf.subrange(o1, o1 + pl.len() as int) == pl);
    ber::lemma_slice_of_slice(buf, o1, 0, t1, pl);
    ber::lemma_slice_of_slice(buf, o1, o2 - o1, t2, pl);
    ber::lemma_slice_of_slice(buf, o1, o3 - o1, t3, pl);
    ber::lemma_slice_of_slice(buf, o1, o4 - o1, t4, pl);
    ber::lemma_slice_of_slice(buf, o1, o5 - o1, t5, pl);
    ber::lemma_slice_of_slice(buf, o1, o6 - o1, t6, pl);
    ber::lemma_parse_octet_string_at(buf, o1, m.engine_id);
    ber::lemma_parse_integer_at(buf, o2, m.engine_boots);
    ber::lemma_parse_integer_at(buf, o3, m.engine_time);
    ber::lemma_parse_octet_string_at(buf, o4, m.username);
    ber::lemma_parse_octet_string_at(buf, o5, m.auth_params);
    ber::lemma_parse_octet_string_at(buf, o6, m.priv_params);
    assert(spec_parse_fields(buf, o1) == Some(m));
}

/// Round-trip stability: the canonical encoding of any well-formed record
/// value parses back to exactly that value. Hence, for every record built
/// from non-negative counters and arbitrary byte fields, decoding its
/// encoding succeeds with an equal record, and encoding that result
/// reproduces the same bytes.
#[verifier::rlimit(100)]
pub proof fn lemma_encode_decode_round_trip(m: SecurityParamsView)
    requires
        m.wf(),
        m.engine_id.len() <= usize::MAX,
        m.username.len() <= usize::MAX,
        m.auth_params.len() <= usize::MAX,
        m.priv_params.len() <= usize::MAX,
    ensures
        spec_parse(spec_encode(m)) == Some(m),
{
    let pl = spec_payload(m);
    let lo = ber::spec_len_octets(pl.len());
    let buf = spec_encode(m);
    assert(buf == seq![ber::TAG_SEQUENCE] + lo + pl);
    ber::lemma_pow256_values();
    ber::lemma_min_be_len_le(m.engine_id.len(), 8);
    ber::lemma_min_be_len_le(m.username.len(), 8);
    ber::lemma_min_be_len_le(m.auth_params.len(), 8);
    ber::lemma_min_be_len_le(m.priv_params.len(), 8);
    ber::lemma_uint_content(m.engine_boots);
    ber::lemma_uint_content(m.engine_time);
    assert(ber::spec_octet_string(m.engine_id).len() <= 10 + m.engine_id.len());
    assert(ber::spec_octet_string(m.username).len() <= 10 + m.username.len());
    assert(ber::spec_octet_string(m.auth_params).len() <= 10 + m.auth_params.len());
    assert(ber::spec_octet_string(m.priv_params).len() <= 10 + m.priv_params.len());
    assert(ber::spec_integer(m.engine_boots).len() <= 6);
    assert(ber::spec_integer(m.engine_time).len() <= 6);
    assert(pl.len() < ber::pow256(9));
    ber::lemma_min_be_len_le(pl.len(), 9);
    assert(buf.len() == 1 + lo.len() + pl.len());
    assert(buf[0] == ber::TAG_SEQUENCE);
    let o1 = 1 + lo.len() as int;
    ber::lemma_concat_parts(seq![ber::TAG_SEQUENCE], lo);
    ber::lemma_concat_parts(seq![ber::TAG_SEQUENCE] + lo, pl);
    ber::lemma_slice_of_slice(buf, 0, 1, lo, seq![ber::TAG_SEQUENCE] + lo);
    assert(buf.subrange(1, o1) == lo);
    ber::lemma_parse_len_at(buf, 1, pl.len());
    assert(ber::spec_parse_len(buf, 1) == Some((pl.len(), o1)));
    assert(o1 + pl.len() == buf.len());
    lemma_encode_fields_parse(m);
    assert(spec_parse(buf) == Some(m));
}

impl Default for SecurityParams {
    /// Returns the same empty record as [`SecurityParams::discovery`].
    fn default() -> (r: Self)
        ensures
            r@ == discovery_view(),
            r.wf(),
    {
        Self::discovery()
    }
}

/// The value of an empty record: zero-length byte fields, both counters
/// zero.
pub open spec fn discovery_view() -> SecurityParamsView {
    SecurityParamsView {
        engine_id: Seq::empty(),
        engine_boots: 0,
        engine_time: 0,
        username: Seq::empty(),
        auth_params: Seq::empty(),
        priv_params: Seq::empty(),
    }
}

} // verus!
