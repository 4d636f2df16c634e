//! The name-to-key hash: entries are addressed by a 32-bit key derived from
//! the entry name, never by the name itself.

use vstd::prelude::*;
use vstd::string::StringSliceAdditionalSpecFns;

verus! {

/// ASCII upper-casing of one byte of the name; bytes outside `'a'..='z'`
/// (including every byte of a multi-byte UTF-8 character) pass unchanged.
pub open spec fn fold_byte(b: u8) -> u8 {
    if 97 <= b && b <= 122 {
        (b - 32) as u8
    } else {
        b
    }
}

/// One step of the hash: `h * 61 + (b - 32)`, as 32-bit modular arithmetic.
/// The constant `0x1_0000_0000` added before the reduction keeps the
/// dividend non-negative when `b < 32`.
pub open spec fn hash_step(h: u32, b: u8) -> u32 {
    (((h * 61) + (b as int) + 0x1_0000_0000 - 32) % 0x1_0000_0000) as u32
}

/// The hash of the name bytes still to be folded in, starting from `acc`.
pub open spec fn name_hash_rec(s: Seq<u8>, acc: u32) -> u32
    decreases s.len(),
{
    if s.len() == 0 {
        acc
    } else {
        name_hash_rec(s.drop_first(), hash_step(acc, fold_byte(s[0])))
    }
}

/// The key a name's encoded bytes hash to: every byte upper-cased, then
/// folded left-to-right into a 32-bit accumulator starting at zero.
pub open spec fn name_hash(s: Seq<u8>) -> u32 {
    name_hash_rec(s, 0)
}

proof fn lemma_hash_step_wrapping(h: u32, b: u8)
    ensures
        hash_step(h, b) == vstd::wrapping::u32_specs::wrapping_add(
            vstd::wrapping::u32_specs::wrapping_mul(h, 61),
            vstd::wrapping::u32_specs::wrapping_sub(b as u32, 32),
        ),
{
    let m: int = 0x1_0000_0000;
    let p: int = (h as int) * 61;
    let s: int = (b as int) + m - 32;
    let pm: int = p % m;
    assert(vstd::wrapping::u32_specs::wrapping_mul(h, 61) == pm as u32) by {
        assert(h as nat * 61 as nat == p as nat);
        assert(p as nat % (m as nat) == (p % m) as nat);
    }
    assert(vstd::wrapping::u32_specs::wrapping_sub(b as u32, 32) == (s % m) as u32) by {
        if b < 32 {
            assert(s % m == s) by {
                vstd::arithmetic::div_mod::lemma_small_mod(s as nat, m as nat);
            }
        } else {
            assert(s % m == (b as int) - 32) by {
                vstd::arithmetic::div_mod::lemma_mod_sub_multiples_vanish((b as int) - 32, m);
                vstd::arithmetic::div_mod::lemma_small_mod(((b as int) - 32) as nat, m as nat);
            }
        }
    }
    let sm: int = s % m;
    assert((pm + sm) % m == (p + s) % m) by {
        vstd::arithmetic::div_mod::lemma_add_mod_noop(p, s, m);
        vstd::arithmetic::div_mod::lemma_mod_twice(p, m);
        vstd::arithmetic::div_mod::lemma_mod_twice(s, m);
        vstd::arithmetic::div_mod::lemma_add_mod_noop(pm, sm, m);
        vstd::arithmetic::div_mod::lemma_mod_twice(pm, m);
        vstd::arithmetic::div_mod::lemma_mod_twice(sm, m);
    }
    assert(0 <= pm < m && 0 <= sm < m) by {
        vstd::arithmetic::div_mod::lemma_mod_bound(p, m);
        vstd::arithmetic::div_mod::lemma_mod_bound(s, m);
    }
    if pm + sm > u32::MAX {
        assert((pm + sm) % m == pm + sm - m) by {
            vstd::arithmetic::div_mod::lemma_mod_sub_multiples_vanish(pm + sm - m, m);
            vstd::arithmetic::div_mod::lemma_small_mod((pm + sm - m) as nat, m as nat);
        }
    } else {
        assert((pm + sm) % m == pm + sm) by {
            vstd::arithmetic::div_mod::lemma_small_mod((pm + sm) as nat, m as nat);
        }
    }
}

/// Hashes an entry name to the 32-bit key it is stored under.
///
/// The fold is over the name's UTF-8 bytes: ASCII upper-case first, then
/// `h = h * 61 + (byte - 32)` with 32-bit wraparound on both the
/// multiplication and the subtraction.
pub fn entry_hash(name: &str) -> (r: u32)
    ensures
        r == name_hash(name.spec_bytes()),
{
    let bytes: &[u8] = name.as_bytes();
    let ghost all: Seq<u8> = name.spec_bytes();
    let n: usize = bytes.len();
    let mut hash: u32 = 0;
    let mut i: usize = 0;
    proof {
        assert(all.skip(0) =~= all);
    }
    while i < n
        invariant
            n == all.len(),
            bytes@ == all,
            i <= n,
            name_hash_rec(all.skip(i as int), hash) == name_hash(all),
        decreases n - i,
    {
        let b: u8 = bytes[i];
        let f: u8 = if 97 <= b && b <= 122 {
            b - 32
        } else {
            b
        };
        let next: u32 = hash.wrapping_mul(61).wrapping_add((f as u32).wrapping_sub(32));
        proof {
            lemma_hash_step_wrapping(hash, f);
            assert(all.skip(i as int).drop_first() =~= all.skip(i + 1));
            assert(all.skip(i as int)[0] == all[i as int]);
        }
        hash = next;
        i = i + 1;
    }
    proof {
        assert(all.skip(n as int) =~= Seq::<u8>::empty());
    }
    hash
}

} // verus!
