//! Lists on the wire: one item behind the other, the count known beforehand.

use vstd::prelude::*;

verus! {

/// The items of `items` written one behind the other, each by `write`.
pub open spec fn encode_each<T>(items: Seq<T>, write: spec_fn(T) -> Seq<u8>) -> Seq<u8>
    decreases items.len(),
{
    if items.len() == 0 {
        Seq::empty()
    } else {
        write(items.first()) + encode_each(items.drop_first(), write)
    }
}

/// The `count` items that `s` begins with, each read by `read`, and the rest;
/// nothing where one of them cannot be read.
pub open spec fn front_each<T>(
    s: Seq<u8>,
    count: nat,
    read: spec_fn(Seq<u8>) -> Option<(T, Seq<u8>)>,
) -> Option<(Seq<T>, Seq<u8>)>
    decreases count,
{
    if count == 0 {
        Some((Seq::empty(), s))
    } else {
        match read(s) {
            None => None,
            Some((item, rest)) => match front_each(rest, (count - 1) as nat, read) {
                None => None,
                Some((items, end)) => Some((seq![item] + items, end)),
            },
        }
    }
}

/// `items` before what `more` found: the whole list where `more` found the
/// rest of it, nothing where `more` failed.
pub open spec fn resumed<T>(items: Seq<T>, more: Option<(Seq<T>, Seq<u8>)>) -> Option<
    (Seq<T>, Seq<u8>),
> {
    match more {
        None => None,
        Some((others, end)) => Some((items + others, end)),
    }
}

/// Whether `read` gives back `item` from what `write` made of it, whatever
/// follows.
pub open spec fn reads_back<T>(
    write: spec_fn(T) -> Seq<u8>,
    read: spec_fn(Seq<u8>) -> Option<(T, Seq<u8>)>,
    item: T,
) -> bool {
    forall|tail: Seq<u8>| #[trigger] read(write(item) + tail) == Some((item, tail))
}

/// Whether whatever `read` finds at the front of `s` is what `write` makes of
/// the item found, and the item meets `fit`.
pub open spec fn writes_back<T>(
    write: spec_fn(T) -> Seq<u8>,
    read: spec_fn(Seq<u8>) -> Option<(T, Seq<u8>)>,
    fit: spec_fn(T) -> bool,
    s: Seq<u8>,
) -> bool {
    read(s) matches Some((item, rest)) ==> fit(item) && s == write(item) + rest
}

/// One more item at the end is its bytes at the end.
pub proof fn lemma_encode_each_push<T>(items: Seq<T>, item: T, write: spec_fn(T) -> Seq<u8>)
    ensures
        encode_each(items.push(item), write) == encode_each(items, write) + write(item),
    decreases items.len(),
{
    let longer = items.push(item);
    if items.len() == 0 {
        assert(longer.drop_first() =~= Seq::<T>::empty());
        assert(encode_each(longer.drop_first(), write) =~= Seq::<u8>::empty());
        assert(encode_each(longer, write) =~= write(item));
        assert(encode_each(items, write) + write(item) =~= write(item));
    } else {
        assert(longer.drop_first() =~= items.drop_first().push(item));
        lemma_encode_each_push(items.drop_first(), item, write);
        assert(encode_each(longer, write) =~= encode_each(items, write) + write(item));
    }
}

/// Reading a list goes on item by item: with `items` read already and
/// `count` still to come at `s`, the next item leads the rest.
pub proof fn lemma_front_each_next<T>(
    items: Seq<T>,
    s: Seq<u8>,
    count: nat,
    read: spec_fn(Seq<u8>) -> Option<(T, Seq<u8>)>,
)
    requires
        count > 0,
    ensures
        read(s) is None ==> resumed(items, front_each(s, count, read)) is None,
        read(s) matches Some((item, rest)) ==> resumed(items, front_each(s, count, read))
            == resumed(items.push(item), front_each(rest, (count - 1) as nat, read)),
{
    if let Some((item, rest)) = read(s) {
        if let Some((others, end)) = front_each(rest, (count - 1) as nat, read) {
            assert(items + (seq![item] + others) =~= items.push(item) + others);
        }
    }
}

/// With nothing read yet, what is found is the whole list.
pub proof fn lemma_resumed_first<T>(more: Option<(Seq<T>, Seq<u8>)>)
    ensures
        resumed(Seq::<T>::empty(), more) == more,
{
    if let Some((others, end)) = more {
        assert(Seq::<T>::empty() + others =~= others);
    }
}

/// With nothing left to read, what was read is the whole list.
pub proof fn lemma_resumed_last<T>(
    items: Seq<T>,
    s: Seq<u8>,
    read: spec_fn(Seq<u8>) -> Option<(T, Seq<u8>)>,
)
    ensures
        resumed(items, front_each(s, 0, read)) == Some((items, s)),
{
    assert(items + Seq::<T>::empty() =~= items);
}

/// A list that was written is read back, whatever follows it.
pub proof fn lemma_front_each_of_written<T>(
    items: Seq<T>,
    tail: Seq<u8>,
    write: spec_fn(T) -> Seq<u8>,
    read: spec_fn(Seq<u8>) -> Option<(T, Seq<u8>)>,
)
    requires
        forall|i: int| 0 <= i < items.len() ==> reads_back(write, read, #[trigger] items[i]),
    ensures
        front_each(encode_each(items, write) + tail, items.len(), read) == Some((items, tail)),
    decreases items.len(),
{
    if items.len() == 0 {
        assert(encode_each(items, write) + tail =~= tail);
        assert(items =~= Seq::<T>::empty());
    } else {
        let first = items.first();
        let others = items.drop_first();
        let behind = encode_each(others, write) + tail;
        assert(encode_each(items, write) + tail =~= write(first) + behind);
        assert(reads_back(write, read, items[0]));
        assert(read(write(first) + behind) == Some((first, behind)));
        assert forall|i: int| 0 <= i < others.len() implies reads_back(
            write,
            read,
            #[trigger] others[i],
        ) by {
            assert(others[i] == items[i + 1]);
        }
        lemma_front_each_of_written(others, tail, write, read);
        assert(seq![first] + others =~= items);
    }
}

/// A list that is read is one that was written: the bytes begin with what
/// `write` makes of the items found, and each item meets `fit`.
pub proof fn lemma_front_each_is_written<T>(
    s: Seq<u8>,
    count: nat,
    write: spec_fn(T) -> Seq<u8>,
    read: spec_fn(Seq<u8>) -> Option<(T, Seq<u8>)>,
    fit: spec_fn(T) -> bool,
)
    requires
        forall|t: Seq<u8>| #[trigger] writes_back(write, read, fit, t),
        front_each(s, count, read) is Some,
    ensures
        front_each(s, count, read).unwrap().0.len() == count,
        forall|i: int| 0 <= i < count ==> fit(#[trigger] front_each(s, count, read).unwrap().0[i]),
        s == encode_each(front_each(s, count, read).unwrap().0, write) + front_each(
            s,
            count,
            read,
        ).unwrap().1,
    decreases count,
{
    let found = front_each(s, count, read).unwrap();
    if count == 0 {
        assert(encode_each(found.0, write) + found.1 =~= s);
    } else {
        assert(writes_back(write, read, fit, s));
        let (item, rest) = read(s).unwrap();
        lemma_front_each_is_written(rest, (count - 1) as nat, write, read, fit);
        let more = front_each(rest, (count - 1) as nat, read).unwrap();
        assert(found.0 == seq![item] + more.0);
        assert(found.0.first() == item);
        assert(found.0.drop_first() =~= more.0);
        assert(s =~= encode_each(found.0, write) + found.1);
        assert forall|i: int| 0 <= i < count implies fit(#[trigger] found.0[i]) by {
            if i > 0 {
                assert(found.0[i] == more.0[i - 1]);
            }
        }
    }
}

} // verus!
