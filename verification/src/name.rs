//! Filenames: the 8.3 short form, the short-name checksum that links a
//! long-name run to its short record, and splitting a long name into the
//! 13-character fragments its records carry.
//!
//! A filename is a sequence of UTF-16 code units; an 8.3 short name is always
//! exactly 11 bytes (8 base + 3 extension, space padded).

use vstd::prelude::*;

verus! {

/// One checksum step: rotate the running sum right one bit, add the byte,
/// keep the low eight bits.
pub open spec fn ck_step(sum: u8, b: u8) -> u8 {
    ((sum / 2 + (sum % 2) * 0x80 + b) % 0x100) as u8
}

/// The 8-bit checksum of a short name: fold `ck_step` over its bytes.
pub open spec fn checksum_of(s: Seq<u8>) -> u8
    decreases s.len(),
{
    if s.len() == 0 {
        0
    } else {
        ck_step(checksum_of(s.drop_last()), s.last())
    }
}

/// Computes the short-name checksum. The result depends on the name's bytes
/// alone, so repeated computation over one name always agrees.
pub fn check_sum(name: &Vec<u8>) -> (r: u8)
    ensures
        r == checksum_of(name@),
{
    let mut sum: u8 = 0;
    let mut i: usize = 0;
    let n = name.len();
    while i < n
        invariant
            i <= n,
            n == name@.len(),
            sum == checksum_of(name@.take(i as int)),
        decreases n - i,
    {
        let rot = sum / 2 + (sum % 2) * 0x80;
        sum = ((rot as u16 + name[i] as u16) % 0x100) as u8;
        proof {
            assert(name@.take(i + 1).drop_last() =~= name@.take(i as int));
            assert(name@.take(i + 1).last() == name@[i as int]);
        }
        i = i + 1;
    }
    proof {
        assert(name@.take(n as int) =~= name@);
    }
    sum
}

/// Index of the last dot in the name, or -1 when it has none.
pub open spec fn last_dot(s: Seq<u16>) -> int
    decreases s.len(),
{
    if s.len() == 0 {
        -1
    } else if s.last() == 0x2E {
        s.len() - 1
    } else {
        last_dot(s.drop_last())
    }
}

pub proof fn lemma_last_dot(s: Seq<u16>)
    ensures
        -1 <= last_dot(s) < s.len(),
        last_dot(s) >= 0 ==> s[last_dot(s)] == 0x2E,
        forall|j: int| last_dot(s) < j < s.len() ==> s[j] != 0x2E,
    decreases s.len(),
{
    if s.len() > 0 && s.last() != 0x2E {
        lemma_last_dot(s.drop_last());
        assert(last_dot(s) == last_dot(s.drop_last()));
        if last_dot(s) >= 0 {
            assert(s.drop_last()[last_dot(s)] == s[last_dot(s)]);
        }
        assert forall|j: int| last_dot(s) < j < s.len() implies s[j] != 0x2E by {
            if j < s.len() - 1 {
                assert(s.drop_last()[j] == s[j]);
            }
        }
    }
}

/// A code unit taken into the 8.3 form: ASCII lower case is raised, anything
/// beyond one byte becomes an underscore.
pub open spec fn to_83(c: u16) -> u8 {
    if 0x61 <= c <= 0x7A {
        (c - 0x20) as u8
    } else if c < 0x100 {
        c as u8
    } else {
        0x5F
    }
}

/// `s` cut or space-padded to exactly `n` bytes.
pub open spec fn pad_to(s: Seq<u8>, n: nat) -> Seq<u8> {
    if s.len() >= n {
        s.take(n as int)
    } else {
        s + Seq::new((n - s.len()) as nat, |i: int| 0x20u8)
    }
}

/// The 8.3 short form of a name: the part before the last dot (the whole name
/// when there is no dot past the first position), uppercased and cut or padded
/// to 8 bytes, then the extension cut or padded to 3.
pub open spec fn short_of(name: Seq<u16>) -> Seq<u8> {
    let d = last_dot(name);
    let base = if d >= 1 {
        name.take(d)
    } else {
        name
    };
    let ext = if d >= 1 {
        name.subrange(d + 1, name.len() as int)
    } else {
        Seq::<u16>::empty()
    };
    pad_to(base.map_values(|c: u16| to_83(c)), 8) + pad_to(ext.map_values(|c: u16| to_83(c)), 3)
}

/// `pad_to` yields exactly `n` bytes: the leading ones from `s`, spaces after.
pub proof fn lemma_pad_to(s: Seq<u8>, n: nat)
    ensures
        pad_to(s, n).len() == n,
        forall|i: int|
            0 <= i < n ==> pad_to(s, n)[i] == if i < s.len() {
                s[i]
            } else {
                0x20u8
            },
{
}

pub proof fn lemma_short_of_len(name: Seq<u16>)
    ensures
        short_of(name).len() == 11,
{
}

fn to_83_exec(c: u16) -> (r: u8)
    ensures
        r == to_83(c),
{
    if 0x61 <= c && c <= 0x7A {
        (c - 0x20) as u8
    } else if c < 0x100 {
        c as u8
    } else {
        0x5F
    }
}

/// Derives the 11-byte 8.3 short name by truncation and uppercasing.
pub fn make_shortname(name: &Vec<u16>) -> (r: Vec<u8>)
    ensures
        r@ == short_of(name@),
        r@.len() == 11,
{
    let n = name.len();
    proof {
        lemma_last_dot(name@);
    }
    // find the last dot
    let mut has_dot = false;
    let mut dot: usize = 0;
    let mut i: usize = 0;
    while i < n
        invariant
            i <= n,
            n == name@.len(),
            has_dot ==> dot < i && dot == last_dot(name@.take(i as int)),
            !has_dot ==> last_dot(name@.take(i as int)) == -1,
        decreases n - i,
    {
        proof {
            assert(name@.take(i + 1).drop_last() =~= name@.take(i as int));
        }
        if name[i] == 0x2E {
            dot = i;
            has_dot = true;
        }
        i = i + 1;
    }
    proof {
        assert(name@.take(n as int) =~= name@);
    }
    let ghost d = last_dot(name@);
    let (base_len, ext_start, ext_len): (usize, usize, usize) = if has_dot && dot >= 1 {
        (dot, dot + 1, n - dot - 1)
    } else {
        (n, n, 0)
    };
    proof {
        assert(has_dot && dot >= 1 <==> d >= 1);
    }
    let ghost base = (if d >= 1 {
        name@.take(d)
    } else {
        name@
    }).map_values(|c: u16| to_83(c));
    let ghost ext = (if d >= 1 {
        name@.subrange(d + 1, name@.len() as int)
    } else {
        Seq::<u16>::empty()
    }).map_values(|c: u16| to_83(c));
    proof {
        assert(base.len() == base_len);
        assert(ext.len() == ext_len);
    }
    let mut r: Vec<u8> = Vec::new();
    let mut i: usize = 0;
    while i < 8
        invariant
            i <= 8,
            base_len == base.len(),
            base_len <= n == name@.len(),
            d == last_dot(name@),
            -1 <= d < n,
            r@ == pad_to(base, 8).take(i as int),
            base == (if d >= 1 {
                name@.take(d)
            } else {
                name@
            }).map_values(|c: u16| to_83(c)),
        decreases 8 - i,
    {
        if i < base_len {
            r.push(to_83_exec(name[i]));
            proof {
                if d >= 1 {
                    assert(name@.take(d)[i as int] == name@[i as int]);
                    assert(base[i as int] == to_83(name@.take(d)[i as int]));
                } else {
                    assert(base[i as int] == to_83(name@[i as int]));
                }
            }
        } else {
            r.push(0x20);
        }
        proof {
            lemma_pad_to(base, 8);
            assert(r@ =~= pad_to(base, 8).take(i + 1));
        }
        i = i + 1;
    }
    let mut j: usize = 0;
    while j < 3
        invariant
            j <= 3,
            ext_len == ext.len(),
            ext_start == (if d >= 1 { d + 1 } else { n as int }),
            ext_start + ext_len <= n == name@.len(),
            d == last_dot(name@),
            -1 <= d < n,
            r@ == pad_to(base, 8) + pad_to(ext, 3).take(j as int),
            ext == (if d >= 1 {
                name@.subrange(d + 1, name@.len() as int)
            } else {
                Seq::<u16>::empty()
            }).map_values(|c: u16| to_83(c)),
            base == (if d >= 1 {
                name@.take(d)
            } else {
                name@
            }).map_values(|c: u16| to_83(c)),
        decreases 3 - j,
    {
        if j < ext_len {
            r.push(to_83_exec(name[ext_start + j]));
            proof {
                if d >= 1 {
                    assert(name@.subrange(d + 1, name@.len() as int)[j as int] == name@[d + 1 + j]);
                    assert(ext[j as int] == to_83(name@.subrange(d + 1, name@.len() as int)[j as int]));
                }
            }
        } else {
            r.push(0x20);
        }
        proof {
            lemma_pad_to(ext, 3);
            assert(r@ =~= pad_to(base, 8) + pad_to(ext, 3).take(j + 1));
        }
        j = j + 1;
    }
    proof {
        assert(pad_to(ext, 3).take(3) =~= pad_to(ext, 3));
        assert(r@ =~= short_of(name@));
    }
    r
}

/// A long name cut into fragments of up to 13 code units, in the order their
/// records are stored on disk: the fragment holding the *last* part of the
/// name comes first, the fragment holding the first 13 characters comes last.
pub open spec fn split_name(name: Seq<u16>) -> Seq<Seq<u16>>
    decreases name.len(),
{
    if name.len() <= 13 {
        seq![name]
    } else {
        split_name(name.subrange(13, name.len() as int)) + seq![name.take(13)]
    }
}

/// The name a stored fragment sequence reassembles to: each fragment read is
/// prepended to the name accumulated so far.
pub open spec fn joined(frs: Seq<Seq<u16>>, j: int) -> Seq<u16>
    decreases j,
{
    if j <= 0 {
        Seq::empty()
    } else {
        frs[j - 1] + joined(frs, j - 1)
    }
}

/// `joined` reads only the first `j` fragments.
pub proof fn lemma_joined_prefix(a: Seq<Seq<u16>>, b: Seq<Seq<u16>>, j: int)
    requires
        0 <= j <= a.len(),
        j <= b.len(),
        forall|i: int| 0 <= i < j ==> a[i] == b[i],
    ensures
        joined(a, j) == joined(b, j),
    decreases j,
{
    if j > 0 {
        lemma_joined_prefix(a, b, j - 1);
    }
}

/// Splitting a name and prepend-joining all the fragments back gives the name
/// again: the storage order and the prepend rule are inverses.
pub proof fn lemma_split_join(name: Seq<u16>)
    ensures
        split_name(name).len() >= 1,
        joined(split_name(name), split_name(name).len() as int) == name,
        forall|i: int| 0 <= i < split_name(name).len() ==> 1 <= (#[trigger] split_name(
            name,
        )[i]).len() <= 13 || name.len() == 0,
    decreases name.len(),
{
    let frs = split_name(name);
    if name.len() <= 13 {
        assert(joined(frs, 0) == Seq::<u16>::empty());
        assert(joined(frs, 1) =~= name);
    } else {
        let tail = name.subrange(13, name.len() as int);
        let head = name.take(13);
        lemma_split_join(tail);
        let ft = split_name(tail);
        assert(frs == ft + seq![head]);
        let k = frs.len() as int;
        assert(frs[k - 1] == head);
        lemma_joined_prefix(ft, frs, k - 1);
        assert(joined(frs, k) == head + joined(frs, k - 1));
        assert(head + tail =~= name);
    }
}

/// The number of fragments a split produces: one per started 13 characters,
/// and one for the empty name.
pub proof fn lemma_split_count(name: Seq<u16>)
    ensures
        name.len() == 0 ==> split_name(name).len() == 1,
        name.len() > 0 ==> (split_name(name).len() - 1) * 13 < name.len() <= split_name(name).len()
            * 13,
    decreases name.len(),
{
    if name.len() > 13 {
        lemma_split_count(name.subrange(13, name.len() as int));
    }
}

fn subvec(v: &Vec<u16>, a: usize, b: usize) -> (r: Vec<u16>)
    requires
        a <= b <= v@.len(),
    ensures
        r@ == v@.subrange(a as int, b as int),
{
    let mut r: Vec<u16> = Vec::new();
    let mut i: usize = a;
    while i < b
        invariant
            a <= i <= b <= v@.len(),
            r@ == v@.subrange(a as int, i as int),
        decreases b - i,
    {
        r.push(v[i]);
        proof {
            assert(r@ =~= v@.subrange(a as int, i + 1));
        }
        i = i + 1;
    }
    r
}

/// Cuts a long name into its stored fragments (see `split_name`).
pub fn split_long_name(name: &Vec<u16>) -> (r: Vec<Vec<u16>>)
    ensures
        r@.map_values(|v: Vec<u16>| v@) == split_name(name@),
    decreases name@.len(),
{
    let n = name.len();
    if n <= 13 {
        let mut r: Vec<Vec<u16>> = Vec::new();
        let whole = subvec(name, 0, n);
        proof {
            assert(whole@ =~= name@);
        }
        r.push(whole);
        proof {
            assert(r@.map_values(|v: Vec<u16>| v@) =~= split_name(name@));
        }
        r
    } else {
        let tail = subvec(name, 13, n);
        let head = subvec(name, 0, 13);
        let mut r = split_long_name(&tail);
        r.push(head);
        proof {
            assert(r@.map_values(|v: Vec<u16>| v@) =~= split_name(name@));
        }
        r
    }
}

/// A code unit a long-name fragment may carry: not the terminator, not the
/// fill unit.
pub open spec fn valid_unit(c: u16) -> bool {
    c != 0 && c != 0xFFFF
}

/// A fragment carries only code units of the name it was split from.
pub proof fn lemma_split_units(name: Seq<u16>)
    ensures
        forall|i: int, j: int|
            0 <= i < split_name(name).len() && 0 <= j < split_name(name)[i].len()
                ==> name.contains(#[trigger] split_name(name)[i][j]),
    decreases name.len(),
{
    let frs = split_name(name);
    if name.len() <= 13 {
        assert forall|i: int, j: int|
            0 <= i < frs.len() && 0 <= j < frs[i].len() implies name.contains(
            #[trigger] frs[i][j],
        ) by {
            assert(frs[i] == name);
        }
    } else {
        let tail = name.subrange(13, name.len() as int);
        let ft = split_name(tail);
        lemma_split_units(tail);
        assert forall|i: int, j: int|
            0 <= i < frs.len() && 0 <= j < frs[i].len() implies name.contains(
            #[trigger] frs[i][j],
        ) by {
            if i < ft.len() {
                assert(frs[i] == ft[i]);
                assert(tail.contains(ft[i][j]));
                let k = choose|k: int| 0 <= k < tail.len() && tail[k] == ft[i][j];
                assert(name[13 + k] == ft[i][j]);
            } else {
                assert(frs[i] == name.take(13));
                assert(name[j] == frs[i][j]);
            }
        }
    }
}

/// Each byte of a short name widened to a code unit.
pub open spec fn widen(s: Seq<u8>) -> Seq<u16> {
    s.map_values(|b: u8| b as u16)
}

/// Widens a short name's bytes into a filename.
pub fn widen_name(s: &Vec<u8>) -> (r: Vec<u16>)
    ensures
        r@ == widen(s@),
{
    let mut r: Vec<u16> = Vec::new();
    let mut i: usize = 0;
    let n = s.len();
    while i < n
        invariant
            i <= n,
            n == s@.len(),
            r@ == widen(s@.take(i as int)),
        decreases n - i,
    {
        r.push(s[i] as u16);
        proof {
            assert(r@ =~= widen(s@.take(i + 1)));
        }
        i = i + 1;
    }
    proof {
        assert(s@.take(n as int) =~= s@);
    }
    r
}

} // verus!
