//! Validation bookkeeping: the probe itself is a bare transport
//! connection attempt performed by the surrounding runtime, and each
//! candidate is classified alive or dead by whether its probe connected
//! in time. Keeping exactly the alive candidates is decided here.

use vstd::prelude::*;
use crate::descriptor::Proxy;
use crate::descriptor::ProxyView;

verus! {

/// The candidates marked alive, in their original order: `cs[i]` is
/// kept exactly when `alive[i]`.
pub open spec fn spec_keep_alive(cs: Seq<ProxyView>, alive: Seq<bool>) -> Seq<ProxyView>
    recommends
        cs.len() == alive.len(),
    decreases cs.len(),
{
    if cs.len() == 0 {
        Seq::empty()
    } else {
        let rest = spec_keep_alive(cs.drop_first(), alive.drop_first());
        if alive[0] {
            seq![cs[0]] + rest
        } else {
            rest
        }
    }
}

/// Keeps exactly the candidates whose probe classified them alive.
/// Dead candidates are discarded, never an error: an empty result is
/// the caller's decision to make.
pub fn keep_alive(candidates: &Vec<Proxy>, alive: &Vec<bool>) -> (r: Vec<Proxy>)
    requires
        candidates.len() == alive.len(),
    ensures
        r.deep_view() == spec_keep_alive(candidates.deep_view(), alive@),
{
    let ghost cdv = candidates.deep_view();
    let ghost adv = alive@;
    let mut r: Vec<Proxy> = Vec::new();
    let mut i: usize = 0;
    proof {
        assert(cdv.skip(0) =~= cdv);
        assert(adv.skip(0) =~= adv);
        assert(r.deep_view() + spec_keep_alive(cdv, adv) =~= spec_keep_alive(cdv, adv));
    }
    while i < candidates.len()
        invariant
            i <= candidates.len(),
            cdv == candidates.deep_view(),
            adv == alive@,
            cdv.len() == candidates.len(),
            adv.len() == cdv.len(),
            spec_keep_alive(cdv, adv) == r.deep_view() + spec_keep_alive(
                cdv.skip(i as int),
                adv.skip(i as int),
            ),
        decreases candidates.len() - i,
    {
        proof {
            assert(cdv.skip(i as int)[0] == cdv[i as int]);
            assert(adv.skip(i as int)[0] == adv[i as int]);
            assert(cdv.skip(i as int).drop_first() =~= cdv.skip(i as int + 1));
            assert(adv.skip(i as int).drop_first() =~= adv.skip(i as int + 1));
        }
        if alive[i] {
            let ghost old_r = r.deep_view();
            r.push(candidates[i].duplicate());
            proof {
                assert(r.deep_view() =~= old_r.push(cdv[i as int]));
                assert(r.deep_view() + spec_keep_alive(cdv.skip(i as int + 1), adv.skip(i as int + 1))
                    =~= old_r + spec_keep_alive(cdv.skip(i as int), adv.skip(i as int)));
            }
        }
        i += 1;
    }
    proof {
        assert(cdv.skip(cdv.len() as int) =~= Seq::<ProxyView>::empty());
        assert(adv.skip(adv.len() as int) =~= Seq::<bool>::empty());
        assert(r.deep_view() + spec_keep_alive(
            cdv.skip(cdv.len() as int),
            adv.skip(adv.len() as int),
        ) =~= r.deep_view());
    }
    r
}

/// Law: validation only filters. Every kept candidate is one of the
/// probed candidates, and a candidate is kept exactly when some probed
/// position holding it was classified alive.
pub proof fn lemma_keep_alive_subset(cs: Seq<ProxyView>, alive: Seq<bool>)
    requires
        cs.len() == alive.len(),
    ensures
        forall|t: int|
            0 <= t < spec_keep_alive(cs, alive).len() ==> cs.contains(
                #[trigger] spec_keep_alive(cs, alive)[t],
            ),
        forall|u: int| 0 <= u < cs.len() && alive[u] ==> spec_keep_alive(cs, alive).contains(
            #[trigger] cs[u],
        ),
    decreases cs.len(),
{
    if cs.len() > 0 {
        let rest = spec_keep_alive(cs.drop_first(), alive.drop_first());
        lemma_keep_alive_subset(cs.drop_first(), alive.drop_first());
        let kept = spec_keep_alive(cs, alive);
        assert forall|t: int| 0 <= t < kept.len() implies cs.contains(#[trigger] kept[t]) by {
            if alive[0] && t == 0 {
                assert(kept[0] == cs[0]);
            } else {
                let off: int = if alive[0] {
                    1
                } else {
                    0
                };
                assert(kept[t] == rest[t - off]);
                assert(cs.drop_first().contains(rest[t - off]));
                let w = choose|w: int|
                    0 <= w < cs.drop_first().len() && cs.drop_first()[w] == rest[t - off];
                assert(cs[w + 1] == rest[t - off]);
            }
        }
        assert forall|u: int| 0 <= u < cs.len() && alive[u] implies kept.contains(
            #[trigger] cs[u],
        ) by {
            if u == 0 {
                assert(kept[0] == cs[0]);
            } else {
                assert(cs.drop_first()[u - 1] == cs[u]);
                assert(alive.drop_first()[u - 1] == alive[u]);
                assert(rest.contains(cs[u]));
                let w = choose|w: int| 0 <= w < rest.len() && rest[w] == cs[u];
                let off: int = if alive[0] {
                    1
                } else {
                    0
                };
                assert(kept[w + off] == cs[u]);
            }
        }
    }
}

} // verus!
