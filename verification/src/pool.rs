//! The rotating resource pool: a round-robin cursor over a fixed list of
//! proxy endpoints. Every draw takes the entry at `cursor % len` and
//! advances the cursor by one, so a run of draws walks the pool in order
//! with no slot skipped and no index out of range.

use vstd::prelude::*;

verus! {

/// A round-robin cursor over a list of proxy endpoints. The list never
/// changes during a run; only the cursor advances.
pub struct ProxyManager {
    pub proxies: Vec<String>,
    pub index: usize,
}

/// The pool index the cursor value `c` selects in a pool of size `n`.
pub open spec fn rotation_index(c: nat, n: nat) -> nat
    recommends
        n > 0,
{
    (c % n) as nat
}

impl ProxyManager {
    /// Wraps a list of endpoints with the cursor at its start.
    pub fn new(proxies: Vec<String>) -> (r: Self)
        ensures
            r.proxies == proxies,
            r.index == 0,
    {
        ProxyManager { proxies, index: 0 }
    }

    /// How many endpoints the pool rotates over.
    pub fn len(&self) -> (r: usize)
        ensures
            r == self.proxies.len(),
    {
        self.proxies.len()
    }

    /// Draws the endpoint the cursor points at and advances the cursor.
    /// The draw is total over non-empty pools: it returns the entry at
    /// `index % len`, never anything outside the list.
    pub fn get_next_proxy(&mut self) -> (r: String)
        requires
            old(self).proxies.len() > 0,
            old(self).index < usize::MAX,
        ensures
            final(self).proxies == old(self).proxies,
            final(self).index == old(self).index + 1,
            r == old(self).proxies@[rotation_index(old(self).index as nat, old(self).proxies.len() as nat) as int],
    {
        let proxy = self.proxies[self.index % self.proxies.len()].clone();
        self.index += 1;
        proxy
    }
}

/// The sequence of pool indices that `m` successive draws take, starting
/// from cursor value `c`, over a pool of size `n`.
pub open spec fn rotation_indices(c: nat, n: nat, m: nat) -> Seq<nat> {
    Seq::new(m, |k: int| rotation_index((c + k) as nat, n))
}

/// Law: over a pool of size `n`, any `m` successive draws starting at
/// cursor `c` take the indices `(c, c + 1, c + 2, ...) mod n` — every
/// index lies in `[0, n)`, and each draw advances exactly one slot
/// beyond the previous one, modulo the pool size.
pub proof fn lemma_rotation(c: nat, n: nat, m: nat)
    requires
        n > 0,
    ensures
        rotation_indices(c, n, m).len() == m,
        forall|k: int| 0 <= k < m ==> #[trigger] rotation_indices(c, n, m)[k] < n,
        forall|k: int|
            0 <= k < m - 1 ==> #[trigger] rotation_indices(c, n, m)[k + 1] == rotation_index(
                (rotation_indices(c, n, m)[k] + 1) as nat,
                n,
            ),
{
    let s = rotation_indices(c, n, m);
    assert forall|k: int| 0 <= k < m implies #[trigger] s[k] < n by {
        vstd::arithmetic::div_mod::lemma_mod_bound((c + k) as int, n as int);
    }
    assert forall|k: int| 0 <= k < m - 1 implies #[trigger] s[k + 1] == rotation_index(
        (s[k] + 1) as nat,
        n,
    ) by {
        vstd::arithmetic::div_mod::lemma_mod_bound((c + k) as int, n as int);
        vstd::arithmetic::div_mod::lemma_add_mod_noop((c + k) as int, 1, n as int);
        assert((c + k + 1) % (n as int) == ((c + k) % (n as int) + 1int % (n as int)) % (n as int));
        if n == 1 {
            vstd::arithmetic::div_mod::lemma_mod_self_0(1int);
        } else {
            vstd::arithmetic::div_mod::lemma_small_mod(1nat, n);
        }
    }
}

} // verus!
