//! The list of servers that a client is given: addresses with commas between them.

use vstd::prelude::*;
use vstd::string::StrSliceExecFns;

verus! {

/// The texts of a vector of strings.
pub open spec fn texts(v: Seq<String>) -> Seq<Seq<char>> {
    Seq::new(v.len(), |i: int| v[i]@)
}

/// `parts` with a comma between each two of them.
pub open spec fn joined(parts: Seq<Seq<char>>) -> Seq<char>
    decreases parts.len(),
{
    if parts.len() == 0 {
        Seq::empty()
    } else if parts.len() == 1 {
        parts[0]
    } else {
        joined(parts.drop_last()).push(',') + parts.last()
    }
}

/// `parts` are what the commas of `list` separate: without a comma themselves, they make up the
/// list when commas are put between them, and there is at least one of them.
pub open spec fn separated(list: Seq<char>, parts: Seq<Seq<char>>) -> bool {
    &&& parts.len() > 0
    &&& joined(parts) == list
    &&& forall|i: int| 0 <= i < parts.len() ==> !(#[trigger] parts[i]).contains(',')
}

/// The addresses of a list.
pub fn split_addresses(list: &str) -> (addresses: Vec<String>)
    ensures
        separated(list@, texts(addresses@)),
{
    let n: usize = list.unicode_len();
    let mut addresses: Vec<String> = Vec::new();
    let mut start: usize = 0;
    let mut i: usize = 0;
    while i < n
        invariant
            n == list@.len(),
            start <= i <= n,
            addresses@.len() == 0 ==> start == 0,
            addresses@.len() > 0 ==> start > 0 && joined(texts(addresses@)).push(',') == list@.take(start as int),
            forall|k: int| 0 <= k < addresses@.len() ==> !(#[trigger] addresses@[k])@.contains(','),
            forall|k: int| start <= k < i ==> list@[k] != ',',
        decreases n - i,
    {
        if list.get_char(i) == ',' {
            let part: String = list.substring_char(start, i).to_string();
            proof {
                lemma_next_part(list@, texts(addresses@), start as int, i as int);
                assert(texts(addresses@.push(part)) =~= texts(addresses@).push(part@));
                assert(list@.take(i + 1) =~= list@.take(i as int).push(','));
            }
            addresses.push(part);
            start = i + 1;
        }
        i += 1;
    }
    let part: String = list.substring_char(start, n).to_string();
    proof {
        lemma_next_part(list@, texts(addresses@), start as int, n as int);
        assert(texts(addresses@.push(part)) =~= texts(addresses@).push(part@));
        assert(list@.take(n as int) =~= list@);
        let all = texts(addresses@).push(part@);
        assert forall|k: int| 0 <= k < all.len() implies !(#[trigger] all[k]).contains(',') by {
            if k < addresses@.len() {
                assert(!addresses@[k]@.contains(','));
            }
        }
    }
    addresses.push(part);
    addresses
}

/// Adding what stands between the last comma and the position `end`.
proof fn lemma_next_part(list: Seq<char>, parts: Seq<Seq<char>>, start: int, end: int)
    requires
        0 <= start <= end <= list.len(),
        parts.len() == 0 ==> start == 0,
        parts.len() > 0 ==> joined(parts).push(',') == list.take(start),
        forall|k: int| start <= k < end ==> list[k] != ',',
    ensures
        joined(parts.push(list.subrange(start, end))) == list.take(end),
        !list.subrange(start, end).contains(','),
{
    let part = list.subrange(start, end);
    let more = parts.push(part);
    assert(more.drop_last() =~= parts);
    if parts.len() == 0 {
        assert(list.subrange(0, end) =~= list.take(end));
    } else {
        assert(list.take(start) + part =~= list.take(end));
    }
}

/// The parts of a list are told by the list: there is one way only to separate it.
pub proof fn law_one_separation(list: Seq<char>, a: Seq<Seq<char>>, b: Seq<Seq<char>>)
    requires
        separated(list, a),
        separated(list, b),
    ensures
        a == b,
    decreases list.len(),
{
    let x = a.last();
    let y = b.last();
    lemma_last_part(list, a);
    lemma_last_part(list, b);
    if x.len() < y.len() {
        assert(a.len() > 1);
        assert(list[list.len() - x.len() - 1] == ',');
        assert(y[y.len() - x.len() - 1] == ',');
    }
    if y.len() < x.len() {
        assert(b.len() > 1);
        assert(list[list.len() - y.len() - 1] == ',');
        assert(x[x.len() - y.len() - 1] == ',');
    }
    assert(x =~= y);
    if a.len() > 1 {
        assert(list[list.len() - x.len() - 1] == ',');
        assert(b.len() > 1);
        let rest = list.take(list.len() - x.len() - 1);
        assert(joined(a.drop_last()) =~= rest);
        assert(joined(b.drop_last()) =~= rest);
        assert forall|i: int| 0 <= i < a.drop_last().len() implies !(#[trigger] a.drop_last()[i]).contains(',') by {
            assert(!a[i].contains(','));
        }
        assert forall|i: int| 0 <= i < b.drop_last().len() implies !(#[trigger] b.drop_last()[i]).contains(',') by {
            assert(!b[i].contains(','));
        }
        law_one_separation(rest, a.drop_last(), b.drop_last());
        assert(a =~= a.drop_last().push(x));
        assert(b =~= b.drop_last().push(y));
    } else {
        assert(b.len() == 1);
        assert(a =~= b);
    }
}

/// The last part is the end of the list, behind a comma unless it is the only one.
proof fn lemma_last_part(list: Seq<char>, parts: Seq<Seq<char>>)
    requires
        separated(list, parts),
    ensures
        parts.last().len() <= list.len(),
        parts.last() == list.skip(list.len() - parts.last().len()),
        parts.len() > 1 ==> parts.last().len() < list.len() && list[list.len() - parts.last().len() - 1] == ','
            && joined(parts.drop_last()) == list.take(list.len() - parts.last().len() - 1),
        parts.len() == 1 ==> parts.last().len() == list.len(),
        !parts.last().contains(','),
{
    let last = parts.last();
    assert(!parts[parts.len() - 1].contains(','));
    if parts.len() == 1 {
        assert(list.skip(0) =~= list);
    } else {
        let head = joined(parts.drop_last());
        assert(list == head.push(',') + last);
        assert(list.skip(list.len() - last.len()) =~= last);
        assert(list.take(list.len() - last.len() - 1) =~= head);
    }
}

/// The number of commas in a text.
pub open spec fn commas(s: Seq<char>) -> nat
    decreases s.len(),
{
    if s.len() == 0 {
        0
    } else {
        commas(s.drop_last()) + if s.last() == ',' { 1nat } else { 0 }
    }
}

proof fn lemma_commas_add(a: Seq<char>, b: Seq<char>)
    ensures
        commas(a + b) == commas(a) + commas(b),
    decreases b.len(),
{
    if b.len() == 0 {
        assert(a + b =~= a);
    } else {
        lemma_commas_add(a, b.drop_last());
        assert((a + b).drop_last() =~= a + b.drop_last());
    }
}

proof fn lemma_no_commas(s: Seq<char>)
    requires
        !s.contains(','),
    ensures
        commas(s) == 0,
    decreases s.len(),
{
    if s.len() > 0 {
        assert(s.contains(s.last()));
        assert forall|i: int| 0 <= i < s.drop_last().len() implies s.drop_last()[i] != ',' by {
            assert(s.contains(s[i]));
        }
        lemma_no_commas(s.drop_last());
    }
}

/// There is one part more than there are commas, and the parts hold all characters of the list but
/// these.
pub proof fn law_parts(list: Seq<char>, parts: Seq<Seq<char>>)
    requires
        separated(list, parts),
    ensures
        parts.len() == commas(list) + 1,
        parts.flatten().len() + commas(list) == list.len(),
    decreases parts.len(),
{
    let last = parts.last();
    assert(!parts[parts.len() - 1].contains(','));
    lemma_no_commas(last);
    lemma_last_part(list, parts);
    let rest = parts.drop_last();
    parts.lemma_flatten_and_flatten_alt_are_equivalent();
    rest.lemma_flatten_and_flatten_alt_are_equivalent();
    if parts.len() == 1 {
        assert(list =~= last);
        assert(rest =~= Seq::<Seq<char>>::empty());
    } else {
        let head = joined(rest);
        assert forall|i: int| 0 <= i < rest.len() implies !(#[trigger] rest[i]).contains(',') by {
            assert(!parts[i].contains(','));
        }
        law_parts(head, rest);
        assert(list == head.push(',') + last);
        lemma_commas_add(head.push(','), last);
        assert(head.push(',').drop_last() =~= head);
    }
}

/// A list is put together from its parts and commas alone: a further part comes behind a comma.
pub proof fn law_further_part(list: Seq<char>, parts: Seq<Seq<char>>, part: Seq<char>)
    requires
        separated(list, parts),
        !part.contains(','),
    ensures
        separated(list.push(',') + part, parts.push(part)),
        separated(part, seq![part]),
{
    let more = parts.push(part);
    assert(more.drop_last() =~= parts);
    assert forall|i: int| 0 <= i < more.len() implies !(#[trigger] more[i]).contains(',') by {
        if i < parts.len() {
            assert(!parts[i].contains(','));
        }
    }
}

/// The texts of strings are theirs, in their order.
pub proof fn law_texts(v: Seq<String>)
    ensures
        texts(v).len() == v.len(),
        forall|i: int| 0 <= i < v.len() ==> #[trigger] texts(v)[i] == v[i]@,
{
}

} // verus!
