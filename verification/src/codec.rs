//! The snapshot codec: a deterministic, self-describing byte encoding of the
//! ledger (owner, then entry count, then the entries in storage order, every
//! length as eight little-endian bytes), the exact decoder, and the proof
//! that decoding an encoded snapshot reproduces the ledger.

use vstd::prelude::*;

use crate::ledger::entries;
use crate::ledger::Account;
use crate::ledger::Identity;
use crate::ledger::Ledger;
use crate::model::keys_unique;
use crate::model::lemma_total_nonneg;
use crate::model::lemma_total_push;
use crate::model::lemma_total_split;
use crate::model::total_of;

verus! {

/// The eight little-endian bytes of a 64-bit integer.
pub open spec fn u64_le(n: u64) -> Seq<u8> {
    seq![
        (n & 0xff) as u8,
        ((n >> 8) & 0xff) as u8,
        ((n >> 16) & 0xff) as u8,
        ((n >> 24) & 0xff) as u8,
        ((n >> 32) & 0xff) as u8,
        ((n >> 40) & 0xff) as u8,
        ((n >> 48) & 0xff) as u8,
        ((n >> 56) & 0xff) as u8,
    ]
}

/// The 64-bit integer carried by eight little-endian bytes.
pub open spec fn u64_of(b: Seq<u8>) -> u64 {
    (b[0] as u64) | ((b[1] as u64) << 8) | ((b[2] as u64) << 16) | ((b[3] as u64) << 24) | ((
    b[4] as u64) << 32) | ((b[5] as u64) << 40) | ((b[6] as u64) << 48) | ((b[7] as u64) << 56)
}

pub proof fn lemma_u64_of_le(n: u64)
    ensures
        u64_of(u64_le(n)) == n,
{
    assert(((n & 0xff) as u8 as u64) | (((n >> 8) & 0xff) as u8 as u64) << 8 | (((n >> 16)
        & 0xff) as u8 as u64) << 16 | (((n >> 24) & 0xff) as u8 as u64) << 24 | (((n >> 32)
        & 0xff) as u8 as u64) << 32 | (((n >> 40) & 0xff) as u8 as u64) << 40 | (((n >> 48)
        & 0xff) as u8 as u64) << 48 | (((n >> 56) & 0xff) as u8 as u64) << 56 == n)
        by (bit_vector);
}

/// A length-prefixed byte string: eight length bytes, then the bytes.
pub open spec fn enc_bytes(b: Seq<u8>) -> Seq<u8> {
    u64_le(b.len() as u64) + b
}

/// One encoded entry: the length-prefixed key, then the balance.
pub open spec fn enc_entry(p: (Seq<u8>, u64)) -> Seq<u8> {
    enc_bytes(p.0) + u64_le(p.1)
}

/// The encoded entries, in storage order.
pub open spec fn enc_entries(e: Seq<(Seq<u8>, u64)>) -> Seq<u8>
    decreases e.len(),
{
    if e.len() == 0 {
        Seq::<u8>::empty()
    } else {
        enc_entry(e[0]) + enc_entries(e.drop_first())
    }
}

/// Whether every length fits its eight-byte prefix (always true of values
/// held in memory).
pub open spec fn encodable(owner: Seq<u8>, e: Seq<(Seq<u8>, u64)>) -> bool {
    &&& owner.len() <= u64::MAX
    &&& e.len() <= u64::MAX
    &&& forall|i: int| 0 <= i < e.len() ==> (#[trigger] e[i]).0.len() <= u64::MAX
}

/// The whole snapshot: the owner, the entry count, the entries.
pub open spec fn encoding_of(owner: Seq<u8>, e: Seq<(Seq<u8>, u64)>) -> Seq<u8> {
    enc_bytes(owner) + u64_le(e.len() as u64) + enc_entries(e)
}

/// The exact meaning of a snapshot's entry section: `count` entries, each a
/// length-prefixed key and a balance, with nothing left over.
pub open spec fn dec_entries(bytes: Seq<u8>, count: nat) -> Option<Seq<(Seq<u8>, u64)>>
    decreases count,
{
    if count == 0 {
        if bytes.len() == 0 {
            Option::Some(Seq::<(Seq<u8>, u64)>::empty())
        } else {
            Option::None
        }
    } else if bytes.len() < 8 {
        Option::None
    } else {
        let klen = u64_of(bytes.take(8)) as int;
        if bytes.len() < 16 + klen {
            Option::None
        } else {
            let key = bytes.subrange(8, 8 + klen);
            let bal = u64_of(bytes.subrange(8 + klen, 16 + klen));
            match dec_entries(bytes.skip(16 + klen), (count - 1) as nat) {
                Option::Some(rest) => Option::Some(seq![(key, bal)] + rest),
                Option::None => Option::None,
            }
        }
    }
}

/// The exact meaning of a whole snapshot; `None` on truncated or malformed
/// bytes.
pub open spec fn spec_decode(bytes: Seq<u8>) -> Option<(Seq<u8>, Seq<(Seq<u8>, u64)>)> {
    if bytes.len() < 8 {
        Option::None
    } else {
        let olen = u64_of(bytes.take(8)) as int;
        if bytes.len() < 16 + olen {
            Option::None
        } else {
            let owner = bytes.subrange(8, 8 + olen);
            let count = u64_of(bytes.subrange(8 + olen, 16 + olen));
            match dec_entries(bytes.skip(16 + olen), count as nat) {
                Option::Some(e) => Option::Some((owner, e)),
                Option::None => Option::None,
            }
        }
    }
}

proof fn lemma_enc_entries_push(e: Seq<(Seq<u8>, u64)>, p: (Seq<u8>, u64))
    ensures
        enc_entries(e.push(p)) == enc_entries(e) + enc_entry(p),
    decreases e.len(),
{
    if e.len() == 0 {
        assert(e.push(p)[0] == p);
        assert(e.push(p).drop_first() =~= Seq::<(Seq<u8>, u64)>::empty());
        assert(enc_entries(e.push(p)) == enc_entry(p) + enc_entries(
            Seq::<(Seq<u8>, u64)>::empty(),
        ));
        assert(enc_entries(e.push(p)) =~= enc_entries(e) + enc_entry(p));
    } else {
        assert(e.push(p)[0] == e[0]);
        assert(e.push(p).drop_first() =~= e.drop_first().push(p));
        lemma_enc_entries_push(e.drop_first(), p);
        assert(enc_entries(e.push(p)) == enc_entry(e[0]) + (enc_entries(e.drop_first())
            + enc_entry(p)));
        assert(enc_entries(e) == enc_entry(e[0]) + enc_entries(e.drop_first()));
        assert(enc_entry(e[0]) + (enc_entries(e.drop_first()) + enc_entry(p)) =~= (enc_entry(e[0])
            + enc_entries(e.drop_first())) + enc_entry(p));
    }
}

proof fn lemma_dec_enc_entries(e: Seq<(Seq<u8>, u64)>)
    requires
        forall|i: int| 0 <= i < e.len() ==> (#[trigger] e[i]).0.len() <= u64::MAX,
    ensures
        dec_entries(enc_entries(e), e.len() as nat) == Option::Some(e),
    decreases e.len(),
{
    if e.len() == 0 {
        assert(enc_entries(e).len() == 0);
        assert(e =~= Seq::<(Seq<u8>, u64)>::empty());
    } else {
        let b = enc_entries(e);
        let key = e[0].0;
        let klen = key.len() as int;
        assert(e[0].0.len() <= u64::MAX);
        lemma_u64_of_le(key.len() as u64);
        assert(b =~= u64_le(key.len() as u64) + key + u64_le(e[0].1) + enc_entries(e.drop_first()));
        assert(b.take(8) =~= u64_le(key.len() as u64));
        assert(u64_of(b.take(8)) as int == klen);
        assert(b.len() >= 16 + klen);
        assert(b.subrange(8, 8 + klen) =~= key);
        assert(b.subrange(8 + klen, 16 + klen) =~= u64_le(e[0].1));
        lemma_u64_of_le(e[0].1);
        assert(b.skip(16 + klen) =~= enc_entries(e.drop_first()));
        lemma_dec_enc_entries(e.drop_first());
        assert(e[0] == (key, e[0].1));
        assert(seq![(key, e[0].1)] + e.drop_first() =~= e);
    }
}

/// Round trip of the snapshot codec: decoding an encoded snapshot gives back
/// exactly the owner and the entries that were encoded.
pub proof fn lemma_snapshot_round_trip(owner: Seq<u8>, e: Seq<(Seq<u8>, u64)>)
    requires
        encodable(owner, e),
    ensures
        spec_decode(encoding_of(owner, e)) == Option::Some((owner, e)),
{
    let bytes = encoding_of(owner, e);
    let olen = owner.len() as int;
    lemma_u64_of_le(owner.len() as u64);
    assert(bytes =~= u64_le(owner.len() as u64) + owner + u64_le(e.len() as u64) + enc_entries(e));
    assert(bytes.take(8) =~= u64_le(owner.len() as u64));
    assert(u64_of(bytes.take(8)) as int == olen);
    assert(bytes.len() >= 16 + olen);
    assert(bytes.subrange(8, 8 + olen) =~= owner);
    assert(bytes.subrange(8 + olen, 16 + olen) =~= u64_le(e.len() as u64));
    lemma_u64_of_le(e.len() as u64);
    assert(bytes.skip(16 + olen) =~= enc_entries(e));
    lemma_dec_enc_entries(e);
}

fn push_u64(out: &mut Vec<u8>, n: u64)
    ensures
        final (out)@ == old(out)@ + u64_le(n),
{
    proof {
        assert(n & 0xff < 256 && (n >> 8) & 0xff < 256 && (n >> 16) & 0xff < 256 && (n >> 24)
            & 0xff < 256 && (n >> 32) & 0xff < 256 && (n >> 40) & 0xff < 256 && (n >> 48) & 0xff
            < 256 && (n >> 56) & 0xff < 256) by (bit_vector);
    }
    out.push((n & 0xff) as u8);
    out.push(((n >> 8) & 0xff) as u8);
    out.push(((n >> 16) & 0xff) as u8);
    out.push(((n >> 24) & 0xff) as u8);
    out.push(((n >> 32) & 0xff) as u8);
    out.push(((n >> 40) & 0xff) as u8);
    out.push(((n >> 48) & 0xff) as u8);
    out.push(((n >> 56) & 0xff) as u8);
    proof {
        assert(out@ =~= old(out)@ + u64_le(n));
    }
}

fn push_prefixed(out: &mut Vec<u8>, b: &Vec<u8>)
    ensures
        final (out)@ == old(out)@ + enc_bytes(b@),
{
    push_u64(out, b.len() as u64);
    let mut i: usize = 0;
    while i < b.len()
        invariant
            i <= b@.len(),
            out@ == old(out)@ + u64_le(b@.len() as u64) + b@.take(i as int),
        decreases b@.len() - i,
    {
        out.push(b[i]);
        proof {
            assert(b@.take(i as int + 1) =~= b@.take(i as int).push(b@[i as int]));
            assert(out@ =~= old(out)@ + u64_le(b@.len() as u64) + b@.take(i as int + 1));
        }
        i += 1;
    }
    proof {
        assert(b@.take(b@.len() as int) =~= b@);
        assert(out@ =~= old(out)@ + enc_bytes(b@));
    }
}

fn read_u64(bytes: &Vec<u8>, i: usize) -> (n: u64)
    requires
        i + 8 <= bytes@.len(),
    ensures
        n == u64_of(bytes@.subrange(i as int, i as int + 8)),
{
    proof {
        assert(bytes@.len() == bytes.len());
    }
    let n = (bytes[i] as u64) | ((bytes[i + 1] as u64) << 8) | ((bytes[i + 2] as u64) << 16) | ((
    bytes[i + 3] as u64) << 24) | ((bytes[i + 4] as u64) << 32) | ((bytes[i + 5] as u64) << 40) | ((
    bytes[i + 6] as u64) << 48) | ((bytes[i + 7] as u64) << 56);
    proof {
        let s = bytes@.subrange(i as int, i as int + 8);
        assert(s[0] == bytes@[i as int]);
        assert(s[1] == bytes@[i as int + 1]);
        assert(s[2] == bytes@[i as int + 2]);
        assert(s[3] == bytes@[i as int + 3]);
        assert(s[4] == bytes@[i as int + 4]);
        assert(s[5] == bytes@[i as int + 5]);
        assert(s[6] == bytes@[i as int + 6]);
        assert(s[7] == bytes@[i as int + 7]);
        assert(n == u64_of(s));
    }
    n
}

fn read_vec(bytes: &Vec<u8>, start: usize, len: usize) -> (out: Vec<u8>)
    requires
        start + len <= bytes@.len(),
    ensures
        out@ == bytes@.subrange(start as int, start as int + len as int),
{
    proof {
        assert(bytes@.len() == bytes.len());
    }
    let mut out: Vec<u8> = Vec::new();
    let mut i: usize = 0;
    while i < len
        invariant
            i <= len,
            start + len <= bytes.len(),
            out@ == bytes@.subrange(start as int, start as int + i as int),
        decreases len - i,
    {
        out.push(bytes[start + i]);
        proof {
            assert(out@ =~= bytes@.subrange(start as int, start as int + i as int + 1));
        }
        i += 1;
    }
    out
}

fn parse_entries(bytes: &Vec<u8>, pos: usize, count: u64) -> (parsed: Option<Vec<Account>>)
    requires
        pos <= bytes@.len(),
    ensures
        match parsed {
            Option::Some(accounts) => dec_entries(bytes@.skip(pos as int), count as nat)
                == Option::Some(entries(accounts@)),
            Option::None => dec_entries(bytes@.skip(pos as int), count as nat) is None,
        },
    decreases count,
{
    let ghost tail = bytes@.skip(pos as int);
    if count == 0 {
        if pos == bytes.len() {
            let accounts: Vec<Account> = Vec::new();
            proof {
                assert(entries(accounts@) =~= Seq::<(Seq<u8>, u64)>::empty());
            }
            Some(accounts)
        } else {
            None
        }
    } else {
        let remaining = bytes.len() - pos;
        if remaining < 8 {
            return None;
        }
        let klen64 = read_u64(bytes, pos);
        proof {
            assert(tail.take(8) =~= bytes@.subrange(pos as int, pos as int + 8));
        }
        if klen64 > (remaining - 8) as u64 || (remaining - 8) as u64 - klen64 < 8 {
            proof {
                assert(tail.len() < 16 + u64_of(tail.take(8)) as int);
            }
            return None;
        }
        let klen = klen64 as usize;
        let key_bytes = read_vec(bytes, pos + 8, klen);
        let balance = read_u64(bytes, pos + 8 + klen);
        proof {
            assert(tail.subrange(8, 8 + klen as int) =~= bytes@.subrange(
                pos as int + 8,
                pos as int + 8 + klen as int,
            ));
            assert(tail.subrange(8 + klen as int, 16 + klen as int) =~= bytes@.subrange(
                pos as int + 8 + klen as int,
                pos as int + 16 + klen as int,
            ));
            assert(tail.skip(16 + klen as int) =~= bytes@.skip(pos as int + 16 + klen as int));
        }
        match parse_entries(bytes, pos + 8 + klen + 8, count - 1) {
            Some(mut accounts) => {
                accounts.insert(0, Account { id: Identity::from_bytes(key_bytes), balance });
                proof {
                    let key = tail.subrange(8, 8 + klen as int);
                    let rest = dec_entries(
                        tail.skip(16 + klen as int),
                        (count - 1) as nat,
                    ).unwrap();
                    assert(entries(accounts@) =~= seq![(key, balance)] + rest);
                }
                Some(accounts)
            },
            None => None,
        }
    }
}

fn check_unique(accounts: &Vec<Account>) -> (ok: bool)
    ensures
        ok == keys_unique(entries(accounts@)),
{
    let ghost e = entries(accounts@);
    let mut i: usize = 0;
    while i < accounts.len()
        invariant
            i <= accounts@.len(),
            e == entries(accounts@),
            forall|a: int, b: int| #![trigger e[a], e[b]] 0 <= a < b < i ==> e[a].0 != e[b].0,
        decreases accounts@.len() - i,
    {
        let mut j: usize = 0;
        while j < i
            invariant
                j <= i < accounts@.len(),
                e == entries(accounts@),
                forall|b: int| 0 <= b < j ==> (#[trigger] e[b]).0 != e[i as int].0,
            decreases i - j,
        {
            if accounts[j].id.same(&accounts[i].id) {
                proof {
                    assert(e[j as int].0 == e[i as int].0);
                    assert(!keys_unique(e));
                }
                return false;
            }
            j += 1;
        }
        i += 1;
    }
    true
}

fn check_total(accounts: &Vec<Account>) -> (ok: bool)
    ensures
        ok == (total_of(entries(accounts@)) <= u64::MAX),
{
    let ghost e = entries(accounts@);
    let mut sum: u64 = 0;
    let mut i: usize = 0;
    while i < accounts.len()
        invariant
            i <= accounts@.len(),
            e == entries(accounts@),
            sum == total_of(e.take(i as int)),
        decreases accounts@.len() - i,
    {
        proof {
            lemma_total_split(e, i as int);
            assert(e.skip(i as int)[0] == e[i as int]);
            assert(e.skip(i as int).drop_first() =~= e.skip(i as int + 1));
            lemma_total_nonneg(e.skip(i as int + 1));
            lemma_total_nonneg(e.take(i as int));
            assert(e.take(i as int + 1) =~= e.take(i as int).push(e[i as int]));
            lemma_total_push(e.take(i as int), e[i as int]);
            assert(e[i as int].1 == accounts@[i as int].balance);
        }
        let balance = accounts[i].balance;
        if balance > u64::MAX - sum {
            proof {
                assert(total_of(e) > u64::MAX);
            }
            return false;
        }
        sum = sum + balance;
        i += 1;
    }
    proof {
        assert(e.take(accounts@.len() as int) =~= e);
    }
    true
}

impl Ledger {
    /// Encodes the ledger as a snapshot byte string.
    pub fn serialize(&self) -> (out: Vec<u8>)
        ensures
            out@ == encoding_of(self.owner@, self.entries_view()),
            encodable(self.owner@, self.entries_view()),
    {
        let ghost e = self.entries_view();
        let mut out: Vec<u8> = Vec::new();
        push_prefixed(&mut out, &self.owner.bytes);
        push_u64(&mut out, self.accounts.len() as u64);
        let mut i: usize = 0;
        while i < self.accounts.len()
            invariant
                i <= self.accounts@.len(),
                e == entries(self.accounts@),
                out@ == enc_bytes(self.owner@) + u64_le(e.len() as u64) + enc_entries(
                    e.take(i as int),
                ),
            decreases self.accounts@.len() - i,
        {
            push_prefixed(&mut out, &self.accounts[i].id.bytes);
            push_u64(&mut out, self.accounts[i].balance);
            proof {
                lemma_enc_entries_push(e.take(i as int), e[i as int]);
                assert(e.take(i as int + 1) =~= e.take(i as int).push(e[i as int]));
                assert(enc_entry(e[i as int]) == enc_bytes(self.accounts@[i as int].id@) + u64_le(
                    self.accounts@[i as int].balance,
                ));
                assert(out@ =~= enc_bytes(self.owner@) + u64_le(e.len() as u64) + enc_entries(
                    e.take(i as int + 1),
                ));
            }
            i += 1;
        }
        proof {
            assert(e.take(e.len() as int) =~= e);
            assert(self.owner.bytes@.len() == self.owner.bytes.len());
            assert(self.accounts@.len() == self.accounts.len());
            assert forall|k: int| 0 <= k < e.len() implies (#[trigger] e[k]).0.len()
                <= u64::MAX by {
                assert(e[k].0 == self.accounts@[k].id.bytes@);
                assert(self.accounts@[k].id.bytes@.len() == self.accounts@[k].id.bytes.len());
            }
        }
        out
    }

    /// Decodes a snapshot byte string back into a ledger. Truncated or
    /// malformed bytes, duplicate keys and an unrepresentable total are all
    /// rejected: a restart never comes up with a partially reconstructed
    /// ledger.
    pub fn deserialize(bytes: &Vec<u8>) -> (restored: Option<Ledger>)
        ensures
            match restored {
                Option::Some(l) => {
                    &&& l.wf()
                    &&& spec_decode(bytes@) is Some
                    &&& l.owner@ == spec_decode(bytes@).unwrap().0
                    &&& l.entries_view() == spec_decode(bytes@).unwrap().1
                },
                Option::None => spec_decode(bytes@) is None || !(keys_unique(
                    spec_decode(bytes@).unwrap().1,
                ) && total_of(spec_decode(bytes@).unwrap().1) <= u64::MAX),
            },
    {
        if bytes.len() < 8 {
            return None;
        }
        let olen64 = read_u64(bytes, 0);
        proof {
            assert(bytes@.take(8) =~= bytes@.subrange(0, 8));
        }
        let remaining = bytes.len() - 8;
        if olen64 > remaining as u64 || remaining as u64 - olen64 < 8 {
            proof {
                assert(bytes@.len() < 16 + u64_of(bytes@.take(8)) as int);
            }
            return None;
        }
        let olen = olen64 as usize;
        let owner_bytes = read_vec(bytes, 8, olen);
        let count = read_u64(bytes, 8 + olen);
        proof {
            assert(bytes@.subrange(8 + olen as int, 16 + olen as int) =~= bytes@.subrange(
                8 + olen as int,
                8 + olen as int + 8,
            ));
        }
        match parse_entries(bytes, 8 + olen + 8, count) {
            Some(accounts) => {
                proof {
                    assert(bytes@.skip(16 + olen as int) =~= bytes@.skip(8 + olen as int + 8));
                }
                if !check_unique(&accounts) {
                    return None;
                }
                if !check_total(&accounts) {
                    return None;
                }
                let ledger = Ledger { owner: Identity::from_bytes(owner_bytes), accounts };
                proof {
                    assert(ledger.entries_view() =~= entries(ledger.accounts@));
                }
                Some(ledger)
            },
            None => None,
        }
    }
}

} // verus!
