//! The string table of the binary ontology format: each distinct IRI text
//! once, addressed by its position.

use vstd::prelude::*;
use vstd::utf8::{encode_utf8, decode_utf8, valid_utf8};
use crate::byte_codec::{u32_le, u64_le, u32_from_le, u64_from_le, push_u32_le, push_u64_le,
    read_u32_at, read_u64_at, starts_with, copy_range, lemma_u32_le_of_from_le,
    lemma_u64_le_of_from_le, lemma_u32_roundtrip, lemma_u64_roundtrip};

verus! {

/// What can go wrong while decoding the binary ontology format.
#[derive(Debug, Clone, Copy, PartialEq, Eq, Structural)]
pub enum BinaryFormatError {
    /// The input ended before a complete item.
    UnexpectedEof,
    /// The input does not start with the format's magic bytes.
    WrongMagic,
    /// The version in the header is not one this library reads.
    UnsupportedVersion(u32),
    /// A string identifier points outside the string table.
    InvalidStringId(u64),
    /// An axiom tag is not one of the format's axiom kinds.
    UnknownAxiomType(u8),
    /// A class expression tag is not one of the format's expression kinds.
    UnknownClassExpressionType(u8),
    /// A string entry is not valid UTF-8.
    InvalidUtf8,
    /// A string entry is not acceptable as an IRI.
    InvalidIri,
}

/// `String::from_utf8`: the string whose UTF-8 encoding is `bytes`, or
/// nothing when the bytes are not valid UTF-8.
#[verifier::external_body]
fn string_from_utf8(bytes: Vec<u8>) -> (r: Option<String>)
    ensures
        r is Some <==> valid_utf8(bytes@),
        r matches Some(s) ==> s@ == decode_utf8(bytes@),
{
    String::from_utf8(bytes).ok()
}

/// The encoded entries of a string table, each as a `u32` byte length and
/// the UTF-8 bytes.
pub open spec fn strs_bytes(ss: Seq<Seq<char>>) -> Seq<u8>
    decreases ss.len(),
{
    if ss.len() == 0 {
        Seq::empty()
    } else {
        strs_bytes(ss.drop_last()) + u32_le(encode_utf8(ss.last()).len() as u32) + encode_utf8(ss.last())
    }
}

/// The encoding of a string table: the entry count as `u64`, then the entries.
pub open spec fn table_bytes(ss: Seq<Seq<char>>) -> Seq<u8> {
    u64_le(ss.len() as u64) + strs_bytes(ss)
}

/// Every entry's UTF-8 length fits the `u32` length field, and the count fits `u64`.
pub open spec fn strs_fit(ss: Seq<Seq<char>>) -> bool {
    &&& ss.len() <= u64::MAX
    &&& forall|i: int| 0 <= i < ss.len() ==> #[trigger] encode_utf8(ss[i]).len() <= u32::MAX
}

proof fn lemma_strs_bytes_prefix(ss: Seq<Seq<char>>, k: int)
    requires
        0 <= k <= ss.len(),
    ensures
        starts_with(strs_bytes(ss), strs_bytes(ss.take(k))),
    decreases ss.len() - k,
{
    if k == ss.len() {
        assert(ss.take(k) == ss);
        assert(strs_bytes(ss).subrange(0, strs_bytes(ss).len() as int) =~= strs_bytes(ss));
    } else {
        lemma_strs_bytes_prefix(ss, k + 1);
        let a = strs_bytes(ss.take(k));
        let b = strs_bytes(ss.take(k + 1));
        assert(ss.take(k + 1).drop_last() == ss.take(k));
        assert(b == a + u32_le(encode_utf8(ss[k]).len() as u32) + encode_utf8(ss[k]));
        assert(b.subrange(0, a.len() as int) =~= a);
        let full = strs_bytes(ss);
        assert(full.subrange(0, b.len() as int) == b);
        assert(full.subrange(0, a.len() as int) =~= b.subrange(0, a.len() as int));
    }
}

proof fn lemma_table_entry(data: Seq<u8>, pos: int, ss: Seq<Seq<char>>, i: int)
    requires
        0 <= pos <= data.len(),
        strs_fit(ss),
        starts_with(data.subrange(pos, data.len() as int), table_bytes(ss)),
        0 <= i < ss.len(),
    ensures
        ({
            let p = pos + 8 + strs_bytes(ss.take(i)).len();
            let l = encode_utf8(ss[i]).len();
            &&& p + 4 + l <= data.len()
            &&& data.subrange(p, p + 4) == u32_le(l as u32)
            &&& data.subrange(p + 4, p + 4 + l) == encode_utf8(ss[i])
        }),
{
    let full = data.subrange(pos, data.len() as int);
    let t = table_bytes(ss);
    let a = strs_bytes(ss.take(i));
    let b = strs_bytes(ss.take(i + 1));
    let l = encode_utf8(ss[i]).len();
    let e = encode_utf8(ss[i]);
    let p = pos + 8 + a.len();
    lemma_strs_bytes_prefix(ss, i + 1);
    assert(ss.take(i + 1).drop_last() == ss.take(i));
    assert(b == a + u32_le(l as u32) + e);
    let sb = strs_bytes(ss);
    assert(t == u64_le(ss.len() as u64) + sb);
    assert(full.subrange(0, t.len() as int) == t);
    assert forall|j: int| 0 <= j < b.len() implies data[pos + 8 + j] == #[trigger] b[j] by {
        assert(sb.subrange(0, b.len() as int) == b);
        assert(sb[j] == b[j]);
        assert(t[8 + j] == sb[j]);
        assert(full[8 + j] == t[8 + j]);
    }
    assert forall|j: int| 0 <= j < 4 implies #[trigger] data.subrange(p, p + 4)[j] == u32_le(l as u32)[j] by {
        assert(b[a.len() + j] == u32_le(l as u32)[j]);
    }
    assert(data.subrange(p, p + 4) =~= u32_le(l as u32));
    assert forall|j: int| 0 <= j < l implies #[trigger] data.subrange(p + 4, p + 4 + l)[j] == e[j] by {
        assert(b[a.len() + 4 + j] == e[j]);
    }
    assert(data.subrange(p + 4, p + 4 + l) =~= e);
}

/// String table for deduplication of IRI texts.
pub struct StringTable {
    strings: Vec<String>,
}

impl StringTable {
    /// The entries, as character sequences.
    pub closed spec fn entries(&self) -> Seq<Seq<char>> {
        self.strings@.map_values(|s: String| s@)
    }

    /// The number of entries.
    pub fn len(&self) -> (r: usize)
        ensures
            r == self.entries().len(),
    {
        self.strings.len()
    }

    /// Creates an empty table.
    pub fn new() -> (r: Self)
        ensures
            r.entries().len() == 0,
    {
        StringTable { strings: Vec::new() }
    }

    /// Adds `s` unless present; returns its position.
    pub fn add(&mut self, s: &str) -> (id: u64)
        ensures
            old(self).entries().contains(s@) ==> final(self).entries() == old(self).entries(),
            !old(self).entries().contains(s@) ==> final(self).entries() == old(self).entries().push(s@),
            (id as int) < final(self).entries().len(),
            final(self).entries()[id as int] == s@,
            forall|j: int| 0 <= j < id ==> final(self).entries()[j] != s@,
    {
        match self.get_id(s) {
            Some(id) => id,
            None => {
                let id = self.strings.len() as u64;
                self.strings.push(s.to_owned());
                assert(self.entries() =~= old(self).entries().push(s@));
                id
            },
        }
    }

    /// The position of the first entry equal to `s`.
    pub fn get_id(&self, s: &str) -> (r: Option<u64>)
        ensures
            r is None <==> !self.entries().contains(s@),
            r matches Some(id) ==> (id as int) < self.entries().len() && self.entries()[id as int] == s@
                && forall|j: int| 0 <= j < id ==> self.entries()[j] != s@,
    {
        let n = self.strings.len();
        let owned = s.to_owned();
        let mut i: usize = 0;
        while i < n
            invariant
                n == self.strings@.len(),
                i <= n,
                owned@ == s@,
                forall|j: int| 0 <= j < i ==> self.entries()[j] != s@,
            decreases n - i,
        {
            if self.strings[i] == owned {
                assert(self.entries()[i as int] == s@);
                return Some(i as u64);
            }
            i += 1;
        }
        None
    }

    /// The entry at position `id`, if any.
    pub fn get_string(&self, id: u64) -> (r: Option<&str>)
        ensures
            (id as int) < self.entries().len() ==> (r matches Some(s) && s@ == self.entries()[id as int]),
            (id as int) >= self.entries().len() ==> r is None,
    {
        if (id as usize) < self.strings.len() && id <= usize::MAX as u64 {
            Some(self.strings[id as usize].as_str())
        } else {
            None
        }
    }

    /// Appends the encoding of the table.
    pub fn write(&self, out: &mut Vec<u8>)
        ensures
            final(out)@ == old(out)@ + table_bytes(self.entries()),
    {
        let n = self.strings.len();
        push_u64_le(out, n as u64);
        let mut i: usize = 0;
        while i < n
            invariant
                n == self.strings@.len(),
                i <= n,
                out@ == old(out)@ + u64_le(n as u64) + strs_bytes(self.entries().take(i as int)),
            decreases n - i,
        {
            let bytes = self.strings[i].as_str().as_bytes();
            push_u32_le(out, bytes.len() as u32);
            let mut k: usize = 0;
            let ghost before = out@;
            while k < bytes.len()
                invariant
                    k <= bytes@.len(),
                    out@ == before + bytes@.subrange(0, k as int),
                decreases bytes@.len() - k,
            {
                out.push(bytes[k]);
                k += 1;
                assert(out@ =~= before + bytes@.subrange(0, k as int));
            }
            proof {
                assert(bytes@.subrange(0, bytes@.len() as int) == bytes@);
                assert(self.entries().take(i + 1).drop_last() == self.entries().take(i as int));
                assert(self.entries().take(i + 1).last() == self.entries()[i as int]);
            }
            i += 1;
        }
        assert(self.entries().take(n as int) == self.entries());
    }

    /// Reads a table encoded at `pos`; returns it and the position after it.
    pub fn read(data: &[u8], pos: usize) -> (r: Result<(StringTable, usize), BinaryFormatError>)
        requires
            pos <= data@.len(),
        ensures
            r matches Ok((t, p)) ==> pos <= p <= data@.len()
                && data@.subrange(pos as int, p as int) == table_bytes(t.entries()),
            r matches Err(e) ==> (e == BinaryFormatError::UnexpectedEof || e == BinaryFormatError::InvalidUtf8),
            forall|ss: Seq<Seq<char>>| strs_fit(ss)
                && #[trigger] starts_with(data@.subrange(pos as int, data@.len() as int), table_bytes(ss))
                ==> (r matches Ok((t, p)) && t.entries() == ss && p == pos + table_bytes(ss).len()),
    {
        let dlen = data.len();
        let count_opt = read_u64_at(data, pos);
        let count = match count_opt {
            Some(c) => c,
            None => {
                proof {
                    assert forall|ss: Seq<Seq<char>>| strs_fit(ss)
                        && #[trigger] starts_with(data@.subrange(pos as int, data@.len() as int), table_bytes(ss))
                        implies false by {
                        assert(table_bytes(ss).len() >= 8);
                    }
                }
                return Err(BinaryFormatError::UnexpectedEof);
            },
        };
        assert(pos + 8 <= data@.len());
        let ghost head = data@.subrange(pos as int, pos + 8);
        proof {
            lemma_u64_le_of_from_le(head);
            assert forall|ss: Seq<Seq<char>>| strs_fit(ss)
                && #[trigger] starts_with(data@.subrange(pos as int, data@.len() as int), table_bytes(ss))
                implies count == ss.len() by {
                let full = data@.subrange(pos as int, data@.len() as int);
                let t = table_bytes(ss);
                assert(full.subrange(0, t.len() as int) == t);
                assert(head =~= t.subrange(0, 8));
                assert(t.subrange(0, 8) =~= u64_le(ss.len() as u64));
                lemma_u64_roundtrip(ss.len() as u64);
            }
        }
        let mut strings: Vec<String> = Vec::new();
        let mut p: usize = pos + 8;
        let mut i: u64 = 0;
        while i < count
            invariant
                dlen == data@.len(),
                pos + 8 <= p <= data@.len(),
                u64_le(count) == head,
                head == data@.subrange(pos as int, pos + 8),
                i <= count,
                strings@.len() == i,
                data@.subrange(pos as int, p as int) == head + strs_bytes(strings@.map_values(|s: String| s@)),
                forall|ss: Seq<Seq<char>>| strs_fit(ss)
                    && #[trigger] starts_with(data@.subrange(pos as int, data@.len() as int), table_bytes(ss))
                    ==> count == ss.len() && strings@.map_values(|s: String| s@) == ss.take(i as int)
                        && p == pos + 8 + strs_bytes(ss.take(i as int)).len(),
            decreases count - i,
        {
            let ghost prev = strings@.map_values(|s: String| s@);
            let len_opt = read_u32_at(data, p);
            let len = match len_opt {
                Some(l) => l,
                None => {
                    proof {
                        assert forall|ss: Seq<Seq<char>>| strs_fit(ss)
                            && #[trigger] starts_with(data@.subrange(pos as int, data@.len() as int), table_bytes(ss))
                            implies false by {
                            lemma_table_entry(data@, pos as int, ss, i as int);
                        }
                    }
                    return Err(BinaryFormatError::UnexpectedEof);
                },
            };
            assert(p + 4 <= data@.len());
            let ghost lenbytes = data@.subrange(p as int, p + 4);
            proof {
                lemma_u32_le_of_from_le(lenbytes);
            }
            let start = p + 4;
            if (len as usize) > data.len() - start {
                proof {
                    assert forall|ss: Seq<Seq<char>>| strs_fit(ss)
                        && #[trigger] starts_with(data@.subrange(pos as int, data@.len() as int), table_bytes(ss))
                        implies false by {
                        lemma_table_entry(data@, pos as int, ss, i as int);
                        lemma_u32_roundtrip(encode_utf8(ss[i as int]).len() as u32);
                    }
                }
                return Err(BinaryFormatError::UnexpectedEof);
            }
            let end = start + len as usize;
            let bytes = copy_range(data, start, end);
            let ghost bytes_view = bytes@;
            let s = match string_from_utf8(bytes) {
                Some(s) => s,
                None => {
                    proof {
                        assert forall|ss: Seq<Seq<char>>| strs_fit(ss)
                            && #[trigger] starts_with(data@.subrange(pos as int, data@.len() as int), table_bytes(ss))
                            implies false by {
                            lemma_table_entry(data@, pos as int, ss, i as int);
                            lemma_u32_roundtrip(encode_utf8(ss[i as int]).len() as u32);
                            vstd::utf8::encode_utf8_valid_utf8(ss[i as int]);
                        }
                    }
                    return Err(BinaryFormatError::InvalidUtf8);
                },
            };
            proof {
                vstd::utf8::decode_utf8_encode_utf8(bytes_view);
                assert(encode_utf8(s@) == bytes_view);
                assert(bytes_view.len() == len as int);
                assert forall|ss: Seq<Seq<char>>| strs_fit(ss)
                    && #[trigger] starts_with(data@.subrange(pos as int, data@.len() as int), table_bytes(ss))
                    implies s@ == ss[i as int] by {
                    lemma_table_entry(data@, pos as int, ss, i as int);
                    lemma_u32_roundtrip(encode_utf8(ss[i as int]).len() as u32);
                    vstd::utf8::encode_utf8_decode_utf8(ss[i as int]);
                }
            }
            strings.push(s);
            p = end;
            i += 1;
            proof {
                let cur = strings@.map_values(|s: String| s@);
                assert(cur == prev.push(s@));
                assert(cur.drop_last() == prev);
                assert(strs_bytes(cur) == strs_bytes(prev) + u32_le(len) + bytes_view);
                assert(data@.subrange(pos as int, p as int) =~= data@.subrange(pos as int, start - 4)
                    + lenbytes + bytes_view);
                assert forall|ss: Seq<Seq<char>>| strs_fit(ss)
                    && #[trigger] starts_with(data@.subrange(pos as int, data@.len() as int), table_bytes(ss))
                    implies cur == ss.take(i as int) && p == pos + 8 + strs_bytes(ss.take(i as int)).len() by {
                    assert(ss.take(i as int).drop_last() == ss.take(i - 1));
                    assert(cur =~= ss.take(i as int));
                }
            }
        }
        let t = StringTable { strings };
        proof {
            assert(t.entries() == strings@.map_values(|s: String| s@));
            assert forall|ss: Seq<Seq<char>>| strs_fit(ss)
                && #[trigger] starts_with(data@.subrange(pos as int, data@.len() as int), table_bytes(ss))
                implies t.entries() == ss by {
                assert(ss.take(i as int) == ss);
            }
        }
        Ok((t, p))
    }
}

} // verus!
