//! Geometric trust: a vector is encrypted by a seed-derived permutation of
//! its dimensions and a sign flip per dimension.  Components are handled as
//! the IEEE-754 bit patterns of their `f32` values (`f32::to_bits`), where a
//! sign flip is the top bit flipped, as `f32` negation does.
use vstd::prelude::*;

verus! {

/// A permutation of the dimensions and a sign flip per dimension: position
/// `i` moves to `perm[i]`, negated where `negate[i]`.
pub struct VectorTransform {
    pub perm: Vec<usize>,
    pub negate: Vec<bool>,
}

/// Why no transform was built.
#[derive(Debug, Clone, Copy, PartialEq, Eq, Structural)]
pub enum TransformError {
    /// A transform needs at least one dimension.
    ZeroDimension,
}

/// `p` sends each of `0..n` to a distinct position of `0..n`.
pub open spec fn is_permutation(p: Seq<usize>, n: nat) -> bool {
    &&& p.len() == n
    &&& forall|i: int| 0 <= i < n ==> #[trigger] p[i] < n
    &&& forall|i: int, j: int| 0 <= i < n && 0 <= j < n && i != j ==> p[i] != p[j]
}

/// A component's bit pattern with its sign flipped where `negate` holds.
pub open spec fn flipped(x: u32, negate: bool) -> u32 {
    if negate {
        x ^ 0x8000_0000u32
    } else {
        x
    }
}

/// `r` encrypts `v`: it has one component per dimension, and component `i`
/// of `v`, sign-flipped where the transform says, stands at `perm[i]`;
/// dimensions past the end of `v` receive zero.
pub open spec fn is_encryption(perm: Seq<usize>, negate: Seq<bool>, v: Seq<u32>, r: Seq<u32>) -> bool {
    &&& r.len() == perm.len()
    &&& forall|i: int|
        0 <= i < perm.len() ==> r[#[trigger] perm[i] as int] == (if i < v.len() {
            flipped(v[i], negate[i])
        } else {
            0u32
        })
}

/// The decryption of `v`: component `i` is the one at `perm[i]`,
/// sign-flipped back; dimensions past the end of `v` are zero.
pub open spec fn decrypted(perm: Seq<usize>, negate: Seq<bool>, v: Seq<u32>) -> Seq<u32> {
    Seq::new(
        perm.len(),
        |i: int|
            if i < v.len() {
                flipped(v[perm[i] as int], negate[i])
            } else {
                0u32
            },
    )
}

/// Flipping a sign twice gives the component back.
proof fn flipped_twice(x: u32, negate: bool)
    ensures
        flipped(flipped(x, negate), negate) == x,
{
    assert((x ^ 0x8000_0000u32) ^ 0x8000_0000u32 == x) by (bit_vector);
}

/// Decrypting an encryption gives the vector back: its components up to the
/// transform's dimension, and past its end the zero that encryption padded
/// with, sign-flipped where the transform negates.
pub proof fn decrypt_undoes_encrypt(perm: Seq<usize>, negate: Seq<bool>, v: Seq<u32>, e: Seq<u32>)
    requires
        is_permutation(perm, perm.len()),
        negate.len() == perm.len(),
        is_encryption(perm, negate, v, e),
    ensures
        decrypted(perm, negate, e) == Seq::new(
            perm.len(),
            |i: int|
                if i < v.len() {
                    v[i]
                } else {
                    flipped(0u32, negate[i])
                },
        ),
{
    assert forall|i: int| 0 <= i < perm.len() implies #[trigger] decrypted(perm, negate, e)[i] == (if i
        < v.len() {
        v[i]
    } else {
        flipped(0u32, negate[i])
    }) by {
        assert(e[perm[i] as int] == (if i < v.len() {
            flipped(v[i], negate[i])
        } else {
            0u32
        }));
        if i < v.len() {
            flipped_twice(v[i], negate[i]);
        }
    }
    assert(decrypted(perm, negate, e) =~= Seq::new(
        perm.len(),
        |i: int|
            if i < v.len() {
                v[i]
            } else {
                flipped(0u32, negate[i])
            },
    ));
}

/// The generator's state rotated left by one byte.
pub open spec fn rotated(s: Seq<u8>) -> Seq<u8> {
    s.drop_first().push(s[0])
}

/// The state with bytes `i..32`, in order, each replaced by
/// `(b[i] + b[(i + 7) % 32]) * 31`, wrapping (later bytes see the earlier
/// replacements).
pub open spec fn mixed(s: Seq<u8>, i: nat) -> Seq<u8>
    decreases 32 - i,
{
    if i >= 32 {
        s
    } else {
        let v = vstd::wrapping::u8_specs::wrapping_mul(
            vstd::wrapping::u8_specs::wrapping_add(s[i as int], s[((i + 7) % 32) as int]),
            31,
        );
        mixed(s.update(i as int, v), i + 1)
    }
}

/// One step of the generator.
pub open spec fn stepped(s: Seq<u8>) -> Seq<u8> {
    mixed(rotated(s), 0)
}

/// The generator's state after `k` steps from the seed.
pub open spec fn state_after(seed: Seq<u8>, k: nat) -> Seq<u8>
    decreases k,
{
    if k == 0 {
        seed
    } else {
        stepped(state_after(seed, (k - 1) as nat))
    }
}

/// The `k`-th byte the generator gives: the first byte of its state then.
pub open spec fn generated(seed: Seq<u8>, k: nat) -> u8 {
    state_after(seed, k)[0]
}

/// `p` with positions `i` and `j` exchanged.
pub open spec fn swapped(p: Seq<usize>, i: int, j: int) -> Seq<usize> {
    p.update(i, p[j]).update(j, p[i])
}

/// The permutation after the first `t` steps of the shuffle: step `t`
/// exchanges position `dim - t` with the position its two bytes name.
pub open spec fn shuffled(seed: Seq<u8>, dim: nat, t: nat) -> Seq<usize>
    decreases t,
{
    if t == 0 {
        Seq::new(dim, |a: int| a as usize)
    } else {
        let i = dim - t;
        let hi = generated(seed, (2 * (t - 1)) as nat);
        let lo = generated(seed, (2 * (t - 1) + 1) as nat);
        swapped(shuffled(seed, dim, (t - 1) as nat), i, (hi * 256 + lo) % (i + 1))
    }
}

/// The permutation a seed gives for `dim` dimensions.
pub open spec fn seed_permutation(seed: Seq<u8>, dim: nat) -> Seq<usize> {
    shuffled(seed, dim, (dim - 1) as nat)
}

/// The sign flips a seed gives for `dim` dimensions: the low bits of the
/// bytes after the shuffle's.
pub open spec fn seed_negations(seed: Seq<u8>, dim: nat) -> Seq<bool> {
    Seq::new(dim, |m: int| generated(seed, (2 * (dim - 1) + m) as nat) % 2 == 1)
}

/// The next byte of the seed-driven generator: the first byte of the state;
/// the state then takes one step.
fn next_byte(state: &mut Vec<u8>) -> (r: u8)
    requires
        old(state)@.len() == 32,
    ensures
        final(state)@.len() == 32,
        r == old(state)@[0],
        final(state)@ == stepped(old(state)@),
{
    let ghost s0 = state@;
    let out = state[0];
    let first = state[0];
    let mut k: usize = 0;
    while k < 31
        invariant
            state@.len() == 32,
            s0.len() == 32,
            first == s0[0],
            k <= 31,
            forall|q: int| 0 <= q < k ==> state@[q] == s0[q + 1],
            forall|q: int| k <= q < 32 ==> state@[q] == s0[q],
        decreases 31 - k,
    {
        let next = state[k + 1];
        state.set(k, next);
        k = k + 1;
    }
    state.set(31, first);
    proof {
        assert(state@ =~= rotated(s0));
    }
    let mut i: usize = 0;
    while i < 32
        invariant
            state@.len() == 32,
            i <= 32,
            s0.len() == 32,
            stepped(s0) == mixed(state@, i as nat),
        decreases 32 - i,
    {
        let v = state[i].wrapping_add(state[(i + 7) % 32]).wrapping_mul(31);
        state.set(i, v);
        i = i + 1;
    }
    out
}

impl VectorTransform {

    /// The transform's shape: `perm` is a permutation of the dimensions and
    /// there is one sign per dimension.
    pub open spec fn wf(&self) -> bool {
        &&& is_permutation(self.perm@, self.perm@.len())
        &&& self.negate@.len() == self.perm@.len()
    }

    /// Encrypts a vector given as component bit patterns: component `i`
    /// moves to `perm[i]`, its sign flipped where `negate[i]`; components
    /// past the transform's dimension are dropped, missing ones are zero.
    pub fn encrypt(&self, v: &[u32]) -> (r: Vec<u32>)
        requires
            self.wf(),
        ensures
            is_encryption(self.perm@, self.negate@, v@, r@),
    {
        let dim = self.perm.len();
        let mut out: Vec<u32> = Vec::new();
        let mut k: usize = 0;
        while k < dim
            invariant
                k <= dim,
                out@.len() == k,
                forall|q: int| 0 <= q < k ==> #[trigger] out@[q] == 0u32,
            decreases dim - k,
        {
            out.push(0u32);
            k = k + 1;
        }
        let n = if dim < v.len() {
            dim
        } else {
            v.len()
        };
        let mut i: usize = 0;
        while i < n
            invariant
                self.wf(),
                dim == self.perm@.len(),
                n <= dim,
                n <= v@.len(),
                n == dim || n == v@.len(),
                i <= n,
                out@.len() == dim,
                forall|q: int|
                    0 <= q < i ==> out@[#[trigger] self.perm@[q] as int] == flipped(
                        v@[q],
                        self.negate@[q],
                    ),
                forall|q: int| i <= q < dim ==> out@[#[trigger] self.perm@[q] as int] == 0u32,
            decreases n - i,
        {
            let x = if self.negate[i] {
                v[i] ^ 0x8000_0000u32
            } else {
                v[i]
            };
            let ghost before = out@;
            let at = self.perm[i];
            out.set(at, x);
            proof {
                assert forall|q: int| 0 <= q < dim && q != i implies out@[#[trigger] self.perm@[q] as int]
                    == before[self.perm@[q] as int] by {
                    assert(self.perm@[q] != self.perm@[i as int]);
                }
            }
            i = i + 1;
        }
        out
    }

    /// Decrypts a vector given as component bit patterns: component `i` is
    /// the one at `perm[i]`, sign-flipped back, for the dimensions the vector
    /// covers; the rest are zero.
    pub fn decrypt(&self, v: &[u32]) -> (r: Vec<u32>)
        requires
            self.wf(),
            forall|i: int| 0 <= i < self.perm@.len() && i < v@.len() ==> #[trigger] self.perm@[i] < v@.len(),
        ensures
            r@ == decrypted(self.perm@, self.negate@, v@),
    {
        let dim = self.perm.len();
        let n = if dim < v.len() {
            dim
        } else {
            v.len()
        };
        let mut out: Vec<u32> = Vec::new();
        let mut i: usize = 0;
        while i < dim
            invariant
                self.wf(),
                dim == self.perm@.len(),
                n == (if dim < v@.len() { dim as int } else { v@.len() as int }),
                forall|q: int| 0 <= q < self.perm@.len() && q < v@.len() ==> #[trigger] self.perm@[q] < v@.len(),
                i <= dim,
                out@ == decrypted(self.perm@, self.negate@, v@).take(i as int),
            decreases dim - i,
        {
            let x = if i < n {
                let y = v[self.perm[i]];
                if self.negate[i] {
                    y ^ 0x8000_0000u32
                } else {
                    y
                }
            } else {
                0u32
            };
            out.push(x);
            proof {
                assert(out@ =~= decrypted(self.perm@, self.negate@, v@).take(i + 1));
            }
            i = i + 1;
        }
        proof {
            assert(out@ =~= decrypted(self.perm@, self.negate@, v@));
        }
        out
    }
    /// Builds the transform of `dim` dimensions from a 32-byte seed: a
    /// Fisher-Yates shuffle driven by the seed's generator, then one sign per
    /// dimension from the low bit of the next bytes.
    pub fn from_seed(seed: &[u8; 32], dim: usize) -> (r: Result<VectorTransform, TransformError>)
        ensures
            dim == 0 <==> r is Err,
            r matches Ok(t) ==> {
                &&& t.perm@ == seed_permutation(seed@, dim as nat)
                &&& t.negate@ == seed_negations(seed@, dim as nat)
                &&& is_permutation(t.perm@, dim as nat)
                &&& t.wf()
            },
    {
        if dim == 0 {
            return Err(TransformError::ZeroDimension);
        }
        let mut state: Vec<u8> = Vec::new();
        let mut k: usize = 0;
        while k < 32
            invariant
                k <= 32,
                state@ == seed@.take(k as int),
            decreases 32 - k,
        {
            state.push(seed[k]);
            proof {
                assert(seed@.take(k + 1) =~= seed@.take(k as int).push(seed@[k as int]));
            }
            k = k + 1;
        }
        proof {
            assert(seed@.take(32) =~= seed@);
        }
        let mut perm: Vec<usize> = Vec::new();
        let mut n: usize = 0;
        while n < dim
            invariant
                n <= dim,
                perm@.len() == n,
                forall|a: int| 0 <= a < n ==> #[trigger] perm@[a] == a,
            decreases dim - n,
        {
            perm.push(n);
            n = n + 1;
        }
        proof {
            assert(perm@ =~= shuffled(seed@, dim as nat, 0));
        }
        let mut i: usize = dim - 1;
        while i >= 1
            invariant
                i < dim,
                state@.len() == 32,
                is_permutation(perm@, dim as nat),
                perm@ == shuffled(seed@, dim as nat, (dim - 1 - i) as nat),
                state@ == state_after(seed@, (2 * (dim - 1 - i)) as nat),
            decreases i,
        {
            let ghost t = (dim - 1 - i) as nat;
            let hi = next_byte(&mut state);
            proof {
                assert(hi == generated(seed@, 2 * t));
                assert(state@ == state_after(seed@, 2 * t + 1));
            }
            let lo = next_byte(&mut state);
            proof {
                assert(lo == generated(seed@, 2 * t + 1));
                assert(state@ == state_after(seed@, 2 * t + 2));
            }
            let j: usize = ((hi as usize) * 256 + (lo as usize)) % (i + 1);
            let a = perm[i];
            let b = perm[j];
            let ghost before = perm@;
            perm.set(i, b);
            perm.set(j, a);
            proof {
                assert forall|x: int, y: int| 0 <= x < dim && 0 <= y < dim && x != y implies perm@[x]
                    != perm@[y] by {
                    let sx = if x == i { j as int } else if x == j { i as int } else { x };
                    let sy = if y == i { j as int } else if y == j { i as int } else { y };
                    assert(perm@[x] == before[sx]);
                    assert(perm@[y] == before[sy]);
                }
                assert forall|x: int| 0 <= x < dim implies #[trigger] perm@[x] < dim by {
                    let sx = if x == i { j as int } else if x == j { i as int } else { x };
                    assert(perm@[x] == before[sx]);
                }
                assert(perm@ =~= swapped(before, i as int, j as int));
                assert(i == dim - (t + 1));
                assert(shuffled(seed@, dim as nat, t + 1) == swapped(before, i as int, j as int));
            }
            i = i - 1;
        }
        let mut negate: Vec<bool> = Vec::new();
        let mut m: usize = 0;
        while m < dim
            invariant
                m <= dim,
                state@.len() == 32,
                state@ == state_after(seed@, (2 * (dim - 1) + m) as nat),
                negate@ == Seq::new(m as nat, |q: int| generated(seed@, (2 * (dim - 1) + q) as nat) % 2 == 1),
            decreases dim - m,
        {
            let b = next_byte(&mut state);
            negate.push(b % 2 == 1);
            proof {
                assert(negate@ =~= Seq::new(
                    (m + 1) as nat,
                    |q: int| generated(seed@, (2 * (dim - 1) + q) as nat) % 2 == 1,
                ));
            }
            m = m + 1;
        }
        Ok(VectorTransform { perm, negate })
    }
}

} // verus!
