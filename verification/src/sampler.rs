//! Gathering the distinct patterns of a sample, in the order in which they
//! are first seen.

use crate::image::{Bitmap, Image};
use crate::utils::{lemma_rotations_wf, rotate_image, rotations};
use vstd::prelude::*;

verus! {

/// The bitmaps that a list of images stands for.
pub open spec fn views(images: Seq<Image>) -> Seq<Bitmap> {
    Seq::new(images.len(), |i: int| images[i]@)
}

/// Every image of the list is well-formed.
pub open spec fn all_wf(images: Seq<Image>) -> bool {
    forall|i: int| 0 <= i < images.len() ==> (#[trigger] images[i]).wf()
}

/// Every image of the list is well-formed and `side` by `side`.
pub open spec fn all_square(images: Seq<Image>, side: nat) -> bool {
    forall|i: int|
        0 <= i < images.len() ==> (#[trigger] images[i]).wf() && images[i]@.width == side
            && images[i]@.height == side
}

/// `have` with each item of `more` appended that is not in it yet.
pub open spec fn absorb<T>(have: Seq<T>, more: Seq<T>) -> Seq<T>
    decreases more.len(),
{
    if more.len() == 0 {
        have
    } else {
        let earlier = absorb(have, more.drop_last());
        if earlier.contains(more.last()) {
            earlier
        } else {
            earlier.push(more.last())
        }
    }
}

/// What one window offers to the catalog: with rotations its three turns,
/// then itself; without, itself.
pub open spec fn offered(window: Bitmap, rotate: bool) -> Seq<Bitmap> {
    if rotate {
        seq![rotations(window, 1), rotations(window, 2), rotations(window, 3), window]
    } else {
        seq![window]
    }
}

/// The catalog after the first `upto` windows of `windows` have been
/// offered, one after the other.
pub open spec fn gathered(windows: spec_fn(int) -> Bitmap, rotate: bool, upto: nat) -> Seq<Bitmap>
    decreases upto,
{
    if upto == 0 {
        Seq::empty()
    } else {
        absorb(gathered(windows, rotate, (upto - 1) as nat), offered(windows(upto - 1), rotate))
    }
}

/// Absorbing a list with one more item is absorbing the list, then the
/// item.
pub proof fn lemma_absorb_push<T>(have: Seq<T>, more: Seq<T>, last: T)
    ensures
        absorb(have, more.push(last)) == absorb(absorb(have, more), seq![last]),
{
    let inner = absorb(have, more);
    assert(more.push(last).drop_last() =~= more);
    assert(more.push(last).last() == last);
    assert(seq![last].drop_last() =~= Seq::<T>::empty());
    assert(seq![last].last() == last);
    assert(absorb(inner, Seq::<T>::empty()) == inner);
    assert(absorb(inner, seq![last]) == if inner.contains(last) {
        inner
    } else {
        inner.push(last)
    });
}

/// Absorbing one item appends it unless it is there already.
pub proof fn lemma_absorb_one<T>(have: Seq<T>, one: T)
    ensures
        absorb(have, seq![one]) == if have.contains(one) {
            have
        } else {
            have.push(one)
        },
{
    assert(seq![one].drop_last() =~= Seq::<T>::empty());
    assert(seq![one].last() == one);
    assert(absorb(have, Seq::<T>::empty()) == have);
}

/// Absorbing keeps what was there in its place, appends nothing twice, and
/// leaves every item of `more` in the list.
pub proof fn lemma_absorb_keeps<T>(have: Seq<T>, more: Seq<T>)
    ensures
        absorb(have, more).len() >= have.len(),
        forall|i: int| 0 <= i < have.len() ==> absorb(have, more)[i] == have[i],
        have.no_duplicates() ==> absorb(have, more).no_duplicates(),
        forall|k: int| 0 <= k < more.len() ==> absorb(have, more).contains(#[trigger] more[k]),
        forall|i: int|
            have.len() <= i < absorb(have, more).len() ==> more.contains(
                #[trigger] absorb(have, more)[i],
            ),
    decreases more.len(),
{
    if more.len() > 0 {
        let front = more.drop_last();
        let earlier = absorb(have, front);
        let all = absorb(have, more);
        lemma_absorb_keeps(have, front);
        assert forall|k: int| 0 <= k < more.len() implies all.contains(#[trigger] more[k]) by {
            if k < front.len() {
                assert(front[k] == more[k]);
                let i = choose|i: int| 0 <= i < earlier.len() && earlier[i] == front[k];
                assert(all[i] == more[k]);
            } else {
                if earlier.contains(more.last()) {
                } else {
                    assert(all[earlier.len() as int] == more[k]);
                }
            }
        }
        assert forall|i: int| have.len() <= i < all.len() implies more.contains(
            #[trigger] all[i],
        ) by {
            if i < earlier.len() {
                let k = choose|k: int| 0 <= k < front.len() && front[k] == earlier[i];
                assert(more[k] == all[i]);
            } else {
                assert(more[more.len() - 1] == all[i]);
            }
        }
    }
}

/// Absorbing copies of one item leaves the list as it was if the item is in
/// it, and appends the item once if it is not and there is a copy.
pub proof fn lemma_absorb_same<T>(have: Seq<T>, more: Seq<T>, item: T)
    requires
        forall|k: int| 0 <= k < more.len() ==> more[k] == item,
    ensures
        have.contains(item) ==> absorb(have, more) == have,
        !have.contains(item) && more.len() > 0 ==> absorb(have, more) == have.push(item),
        more.len() == 0 ==> absorb(have, more) == have,
    decreases more.len(),
{
    if more.len() > 0 {
        let front = more.drop_last();
        assert forall|k: int| 0 <= k < front.len() implies front[k] == item by {
            assert(front[k] == more[k]);
        }
        lemma_absorb_same(have, front, item);
        assert(more.last() == item);
        if !have.contains(item) && front.len() > 0 {
            assert(have.push(item)[have.len() as int] == item);
        }
    }
}

/// Appends `image` unless an equal one is there already.
pub fn add_distinct(images: &mut Vec<Image>, image: Image)
    ensures
        views(final(images)@) == absorb(views(old(images)@), seq![image@]),
        all_wf(old(images)@) && image.wf() ==> all_wf(final(images)@),
        forall|side: nat|
            all_square(old(images)@, side) && image.wf() && image@.width == side && image@.height
                == side ==> all_square(final(images)@, side),
{
    let ghost have = views(images@);
    proof {
        lemma_absorb_one(have, image@);
    }
    let mut i: usize = 0;
    while i < images.len()
        invariant
            images@ == old(images)@,
            have == views(images@),
            i <= images@.len(),
            forall|j: int| 0 <= j < i ==> have[j] != image@,
        decreases images@.len() - i,
    {
        if images[i].same(&image) {
            assert(have[i as int] == image@);
            proof {
                assert(have.contains(image@));
                lemma_absorb_one(have, image@);
            }
            return ;
        }
        i = i + 1;
    }
    images.push(image);
    assert(views(images@) =~= have.push(image@));
}

/// Offers one window to the catalog: with rotations its three turns, then
/// itself.
pub fn offer(images: &mut Vec<Image>, window: Image, rotate: bool)
    requires
        window.wf(),
    ensures
        views(final(images)@) == absorb(views(old(images)@), offered(window@, rotate)),
        all_wf(old(images)@) ==> all_wf(final(images)@),
        forall|side: nat|
            all_square(old(images)@, side) && window@.width == side && window@.height == side
                ==> all_square(final(images)@, side),
{
    let ghost have = views(images@);
    if rotate {
        let ghost w = window@;
        let ghost r1 = rotations(w, 1);
        let ghost r2 = rotations(w, 2);
        let ghost r3 = rotations(w, 3);
        proof {
            lemma_rotations_wf(w, 1);
            lemma_rotations_wf(w, 2);
            lemma_rotations_wf(w, 3);
            lemma_absorb_push(have, seq![r1], r2);
            lemma_absorb_push(have, seq![r1, r2], r3);
            lemma_absorb_push(have, seq![r1, r2, r3], w);
            assert(seq![r1].push(r2) =~= seq![r1, r2]);
            assert(seq![r1, r2].push(r3) =~= seq![r1, r2, r3]);
            assert(seq![r1, r2, r3].push(w) =~= offered(w, true));
        }
        let once = rotate_image(&window, 1);
        add_distinct(images, once);
        let twice = rotate_image(&window, 2);
        add_distinct(images, twice);
        let thrice = rotate_image(&window, 3);
        add_distinct(images, thrice);
        add_distinct(images, window);
    } else {
        add_distinct(images, window);
    }
}

} // verus!
