//! The byte encodings of what the node keeps in its database: log keys and
//! the persistent Raft metadata (current term and vote).
//!
//! Log entries are keyed by their index in big-endian order, so that the
//! lexicographic order of keys is the numeric order of indices. The current
//! term is stored as 8 big-endian bytes; the vote as the candidate ID's UTF-8
//! bytes, with the empty value meaning "no vote".
use vstd::prelude::*;
use vstd::utf8::{decode_utf8, encode_utf8, valid_utf8};

verus! {

/// The 8 big-endian bytes of `x`, most significant first.
pub open spec fn be_bytes(x: u64) -> Seq<u8> {
    seq![
        (x >> 56u64) as u8,
        (x >> 48u64) as u8,
        (x >> 40u64) as u8,
        (x >> 32u64) as u8,
        (x >> 24u64) as u8,
        (x >> 16u64) as u8,
        (x >> 8u64) as u8,
        x as u8,
    ]
}

/// The number whose big-endian bytes are the 8 bytes of `b`.
pub open spec fn from_be_bytes(b: Seq<u8>) -> u64 {
    ((b[0] as u64) << 56u64) | ((b[1] as u64) << 48u64) | ((b[2] as u64) << 40u64) | ((
    b[3] as u64) << 32u64) | ((b[4] as u64) << 24u64) | ((b[5] as u64) << 16u64) | ((b[6] as u64)
        << 8u64) | (b[7] as u64)
}

/// Convert a log index to big-endian bytes for use as a database key.
pub fn log_key(index: u64) -> (r: [u8; 8])
    ensures
        r@ == be_bytes(index),
{
    let r: [u8; 8] = [
        (index >> 56u64) as u8,
        (index >> 48u64) as u8,
        (index >> 40u64) as u8,
        (index >> 32u64) as u8,
        (index >> 24u64) as u8,
        (index >> 16u64) as u8,
        (index >> 8u64) as u8,
        index as u8,
    ];
    assert(r@ =~= be_bytes(index));
    r
}

/// Read a number from 8 big-endian bytes.
pub fn u64_from_be(bytes: &[u8]) -> (r: u64)
    requires
        bytes@.len() == 8,
    ensures
        r == from_be_bytes(bytes@),
{
    ((bytes[0] as u64) << 56u64) | ((bytes[1] as u64) << 48u64) | ((bytes[2] as u64) << 40u64)
        | ((bytes[3] as u64) << 32u64) | ((bytes[4] as u64) << 24u64) | ((bytes[5] as u64)
        << 16u64) | ((bytes[6] as u64) << 8u64) | (bytes[7] as u64)
}

/// Reading back the big-endian bytes of a number gives the number: a saved
/// term or log index is loaded unchanged.
pub proof fn lemma_be_roundtrip(x: u64)
    ensures
        from_be_bytes(be_bytes(x)) == x,
{
    let b0 = (x >> 56u64) as u8;
    let b1 = (x >> 48u64) as u8;
    let b2 = (x >> 40u64) as u8;
    let b3 = (x >> 32u64) as u8;
    let b4 = (x >> 24u64) as u8;
    let b5 = (x >> 16u64) as u8;
    let b6 = (x >> 8u64) as u8;
    let b7 = x as u8;
    assert(((b0 as u64) << 56u64) | ((b1 as u64) << 48u64) | ((b2 as u64) << 40u64) | ((
    b3 as u64) << 32u64) | ((b4 as u64) << 24u64) | ((b5 as u64) << 16u64) | ((b6 as u64)
        << 8u64) | (b7 as u64) == x) by (bit_vector)
        requires
            b0 == (x >> 56u64) as u8,
            b1 == (x >> 48u64) as u8,
            b2 == (x >> 40u64) as u8,
            b3 == (x >> 32u64) as u8,
            b4 == (x >> 24u64) as u8,
            b5 == (x >> 16u64) as u8,
            b6 == (x >> 8u64) as u8,
            b7 == x as u8,
    ;
}

/// Distinct indices have distinct keys, so log entries never share a key.
pub proof fn lemma_log_keys_distinct(a: u64, b: u64)
    requires
        a != b,
    ensures
        be_bytes(a) != be_bytes(b),
{
    if be_bytes(a) == be_bytes(b) {
        lemma_be_roundtrip(a);
        lemma_be_roundtrip(b);
    }
}

/// `x` comes before `y` in lexicographic (byte-by-byte) order.
pub open spec fn lex_less(x: Seq<u8>, y: Seq<u8>) -> bool
    decreases x.len(),
{
    if x.len() == 0 || y.len() == 0 {
        x.len() < y.len()
    } else if x[0] != y[0] {
        x[0] < y[0]
    } else {
        lex_less(x.drop_first(), y.drop_first())
    }
}

/// Log keys sort like the indices they encode: the lexicographic order of
/// the big-endian keys is the numeric order of the indices, so the database
/// keeps the log in index order.
pub proof fn lemma_log_key_order(a: u64, b: u64)
    ensures
        lex_less(be_bytes(a), be_bytes(b)) <==> a < b,
{
    let x = be_bytes(a);
    let y = be_bytes(b);
    reveal_with_fuel(lex_less, 9);
    assert(x.drop_first() =~= seq![x[1], x[2], x[3], x[4], x[5], x[6], x[7]]);
    assert(y.drop_first() =~= seq![y[1], y[2], y[3], y[4], y[5], y[6], y[7]]);
    assert(x.drop_first().drop_first() =~= seq![x[2], x[3], x[4], x[5], x[6], x[7]]);
    assert(y.drop_first().drop_first() =~= seq![y[2], y[3], y[4], y[5], y[6], y[7]]);
    assert(x.drop_first().drop_first().drop_first() =~= seq![x[3], x[4], x[5], x[6], x[7]]);
    assert(y.drop_first().drop_first().drop_first() =~= seq![y[3], y[4], y[5], y[6], y[7]]);
    assert(x.drop_first().drop_first().drop_first().drop_first() =~= seq![x[4], x[5], x[6], x[7]]);
    assert(y.drop_first().drop_first().drop_first().drop_first() =~= seq![y[4], y[5], y[6], y[7]]);
    assert(x.drop_first().drop_first().drop_first().drop_first().drop_first() =~= seq![
        x[5],
        x[6],
        x[7],
    ]);
    assert(y.drop_first().drop_first().drop_first().drop_first().drop_first() =~= seq![
        y[5],
        y[6],
        y[7],
    ]);
    assert(x.drop_first().drop_first().drop_first().drop_first().drop_first().drop_first()
        =~= seq![x[6], x[7]]);
    assert(y.drop_first().drop_first().drop_first().drop_first().drop_first().drop_first()
        =~= seq![y[6], y[7]]);
    assert(x.drop_first().drop_first().drop_first().drop_first().drop_first().drop_first().drop_first()
        =~= seq![x[7]]);
    assert(y.drop_first().drop_first().drop_first().drop_first().drop_first().drop_first().drop_first()
        =~= seq![y[7]]);
    let (a0, a1, a2, a3, a4, a5, a6, a7) = (x[0], x[1], x[2], x[3], x[4], x[5], x[6], x[7]);
    let (b0, b1, b2, b3, b4, b5, b6, b7) = (y[0], y[1], y[2], y[3], y[4], y[5], y[6], y[7]);
    assert((a < b) == (a0 < b0 || (a0 == b0 && (a1 < b1 || (a1 == b1 && (a2 < b2 || (a2 == b2
        && (a3 < b3 || (a3 == b3 && (a4 < b4 || (a4 == b4 && (a5 < b5 || (a5 == b5 && (a6 < b6
        || (a6 == b6 && a7 < b7))))))))))))))) by (bit_vector)
        requires
            a0 == (a >> 56u64) as u8,
            a1 == (a >> 48u64) as u8,
            a2 == (a >> 40u64) as u8,
            a3 == (a >> 32u64) as u8,
            a4 == (a >> 24u64) as u8,
            a5 == (a >> 16u64) as u8,
            a6 == (a >> 8u64) as u8,
            a7 == a as u8,
            b0 == (b >> 56u64) as u8,
            b1 == (b >> 48u64) as u8,
            b2 == (b >> 40u64) as u8,
            b3 == (b >> 32u64) as u8,
            b4 == (b >> 24u64) as u8,
            b5 == (b >> 16u64) as u8,
            b6 == (b >> 8u64) as u8,
            b7 == b as u8,
    ;
}

/// The persistent Raft metadata: the latest term seen and the vote cast in it.
#[derive(Debug, Clone)]
pub struct HardState {
    pub current_term: u64,
    pub voted_for: Option<String>,
}

/// The mathematical value of a [`HardState`].
pub struct HardStateView {
    pub current_term: u64,
    pub voted_for: Option<Seq<char>>,
}

impl View for HardState {
    type V = HardStateView;

    open spec fn view(&self) -> HardStateView {
        HardStateView {
            current_term: self.current_term,
            voted_for: match self.voted_for {
                Some(s) => Some(s@),
                None => None,
            },
        }
    }
}

/// The bytes stored for a vote: the candidate ID's UTF-8 bytes, or nothing.
pub open spec fn vote_bytes(voted_for: Option<Seq<char>>) -> Seq<u8> {
    match voted_for {
        Some(id) => encode_utf8(id),
        None => Seq::empty(),
    }
}

/// The vote that stored bytes stand for: none when absent or empty, the
/// decoded ID when the bytes are UTF-8, and an error otherwise.
pub open spec fn decoded_vote(raw: Option<Seq<u8>>) -> Result<Option<Seq<char>>, StorageError> {
    match raw {
        None => Ok(None),
        Some(b) => if b.len() == 0 {
            Ok(None)
        } else if valid_utf8(b) {
            Ok(Some(decode_utf8(b)))
        } else {
            Err(StorageError::InvalidUtf8)
        },
    }
}

/// Errors from decoding stored metadata.
#[derive(Debug, Clone, Copy, PartialEq, Eq, Structural)]
pub enum StorageError {
    /// The stored vote is not a UTF-8 node ID.
    InvalidUtf8,
}

/// The two values written together, atomically, to persist the hard state:
/// the current term as 8 big-endian bytes and the vote's bytes.
pub fn encode_hard_state(current_term: u64, voted_for: Option<&str>) -> (r: ([u8; 8], Vec<u8>))
    ensures
        r.0@ == be_bytes(current_term),
        r.1@ == vote_bytes(
            match voted_for {
                Some(s) => Some(s@),
                None => None,
            },
        ),
{
    let term_bytes = log_key(current_term);
    let vote = match voted_for {
        Some(id) => vstd::slice::slice_to_vec(id.as_bytes()),
        None => Vec::new(),
    };
    (term_bytes, vote)
}

/// The current term from its stored bytes: 0 when nothing is stored.
pub fn decode_current_term(raw: Option<&[u8]>) -> (r: u64)
    requires
        raw matches Some(b) ==> b@.len() == 8,
    ensures
        r == match raw {
            Some(b) => from_be_bytes(b@),
            None => 0,
        },
{
    match raw {
        None => 0,
        Some(b) => u64_from_be(b),
    }
}

/// The vote from its stored bytes.
pub fn decode_voted_for(raw: Option<Vec<u8>>) -> (r: Result<Option<String>, StorageError>)
    ensures
        match r {
            Ok(Some(s)) => decoded_vote(
                match raw {
                    Some(b) => Some(b@),
                    None => None,
                },
            ) == Ok::<Option<Seq<char>>, StorageError>(Some(s@)),
            Ok(None) => decoded_vote(
                match raw {
                    Some(b) => Some(b@),
                    None => None,
                },
            ) == Ok::<Option<Seq<char>>, StorageError>(None),
            Err(e) => decoded_vote(
                match raw {
                    Some(b) => Some(b@),
                    None => None,
                },
            ) == Err::<Option<Seq<char>>, StorageError>(e),
        },
{
    match raw {
        None => Ok(None),
        Some(b) => {
            if b.len() == 0 {
                Ok(None)
            } else {
                match string_from_utf8(b) {
                    Some(s) => Ok(Some(s)),
                    None => Err(StorageError::InvalidUtf8),
                }
            }
        },
    }
}

/// A stored vote reads back as the same vote; a vote for the empty ID reads
/// back as no vote, since the empty value means "no vote".
pub proof fn lemma_vote_roundtrip(voted_for: Option<Seq<char>>)
    ensures
        decoded_vote(Some(vote_bytes(voted_for))) == Ok::<Option<Seq<char>>, StorageError>(
            match voted_for {
                Some(id) => if id.len() == 0 {
                    None
                } else {
                    Some(id)
                },
                None => None,
            },
        ),
{
    match voted_for {
        Some(id) => {
            vstd::utf8::encode_utf8_valid_utf8(id);
            vstd::utf8::encode_utf8_decode_utf8(id);
            if id.len() == 0 {
                assert(encode_utf8(id) =~= Seq::<u8>::empty()) by {
                    if encode_utf8(id).len() != 0 {
                        assert(decode_utf8(encode_utf8(id)).len() != 0) by {
                            vstd::utf8::decode_utf8_first_scalar(encode_utf8(id));
                        }
                    }
                }
            } else {
                assert(encode_utf8(id).len() != 0) by {
                    if encode_utf8(id).len() == 0 {
                        assert(decode_utf8(encode_utf8(id)) =~= Seq::<char>::empty());
                    }
                }
            }
        },
        None => {},
    }
}

/// `String::from_utf8`: the bytes as a string when they are valid UTF-8.
///
/// Trusted: std documents that it returns an error exactly when the bytes are
/// not UTF-8, and otherwise the string those bytes encode.
#[verifier::external_body]
pub(crate) fn string_from_utf8(bytes: Vec<u8>) -> (r: Option<String>)
    ensures
        r is Some <==> valid_utf8(bytes@),
        r matches Some(s) ==> s@ == decode_utf8(bytes@),
{
    String::from_utf8(bytes).ok()
}

} // verus!
