//! How the files of the tables are found again: each table's heap, index and
//! Bloom filter files are named by the table's number.
use vstd::prelude::*;

verus! {

/// The value of a run of decimal digits.
pub open spec fn digits_value(s: Seq<char>) -> nat
    decreases s.len(),
{
    if s.len() == 0 {
        0
    } else {
        digits_value(s.drop_last()) * 10 + ((s.last() as nat) - ('0' as nat)) as nat
    }
}

/// Whether every character is a decimal digit.
pub open spec fn all_digits(s: Seq<char>) -> bool {
    forall|i: int| 0 <= i < s.len() ==> '0' <= #[trigger] s[i] <= '9'
}

/// The number a file is named by, as `str::parse::<usize>` reads a name: an
/// optional `+`, then one or more decimal digits, with a value that fits in
/// a `usize`.
pub open spec fn name_number(s: Seq<char>) -> Option<usize> {
    let d = if s.len() > 0 && s[0] == '+' {
        s.drop_first()
    } else {
        s
    };
    if d.len() > 0 && all_digits(d) && digits_value(d) <= usize::MAX {
        Some(digits_value(d) as usize)
    } else {
        None
    }
}

/// Reads the number a file is named by.
pub fn parse_name_number(name: &str) -> (r: Option<usize>)
    ensures
        r == name_number(name@),
{
    let ghost s = name@;
    let ghost d = if s.len() > 0 && s[0] == '+' {
        s.drop_first()
    } else {
        s
    };
    let mut value: usize = 0;
    let ghost mut digits: int = 0;
    let mut seen = false;
    let mut overflow = false;
    let mut bad = false;
    let mut first = true;
    for c in it: name.chars()
        invariant
            s == name@,
            first <==> it.index() == 0,
            seen <==> digits > 0,
            it.seq() == s,
            d == (if s.len() > 0 && s[0] == '+' {
                s.drop_first()
            } else {
                s
            }),
            s.len() > 0 && s[0] == '+' ==> (it.index() == 0 ==> digits == 0) && (it.index() > 0 ==> digits
                == it.index() - 1),
            !(s.len() > 0 && s[0] == '+') ==> digits == it.index(),
            0 <= digits <= d.len(),
            bad <==> !all_digits(d.take(digits)),
            !bad && !overflow ==> value == digits_value(d.take(digits)),
            !bad ==> (overflow <==> digits_value(d.take(digits)) > usize::MAX),
    {
        if first && c == '+' {
            assert(s[0] == '+');
        } else {
            let ghost k = digits;
            assert(d[k] == c);
            assert(d.take(k + 1).drop_last() =~= d.take(k));
            assert(d.take(k + 1).last() == c);
            if c < '0' || c > '9' {
                bad = true;
                assert(!('0' <= d.take(k + 1)[k] <= '9'));
            } else {
                if !bad {
                    assert forall|j: int| 0 <= j < k + 1 implies '0' <= #[trigger] d.take(k + 1)[j] <= '9' by {
                        if j < k {
                            assert(d.take(k + 1)[j] == d.take(k)[j]);
                        }
                    }
                }
                else {
                    proof {
                        let j = choose|j: int| 0 <= j < k && !('0' <= #[trigger] d.take(k)[j] <= '9');
                        assert(d.take(k + 1)[j] == d.take(k)[j]);
                    }
                }
                let digit = (c as u32 - '0' as u32) as usize;
                if !overflow && !bad {
                    if value > (usize::MAX - digit) / 10 {
                        overflow = true;
                        assert(value * 10 + digit > usize::MAX) by (nonlinear_arith)
                            requires
                                value > (usize::MAX - digit) / 10,
                                digit <= 9,
                        ;
                    } else {
                        assert(value * 10 + digit <= usize::MAX) by (nonlinear_arith)
                            requires
                                value <= (usize::MAX - digit) / 10,
                                digit <= 9,
                        ;
                        value = value * 10 + digit;
                    }
                } else if !bad {
                    assert(digits_value(d.take(k)) * 10 + digit > usize::MAX) by (nonlinear_arith)
                        requires
                            digits_value(d.take(k)) > usize::MAX,
                    ;
                }
            }
            proof {
                digits = digits + 1;
            }
            seen = true;
        }
        first = false;
    }
    assert(d.take(d.len() as int) =~= d);
    if !seen || bad || overflow {
        None
    } else {
        Some(value)
    }
}

/// The entry of the directory listing `names` (of which the first `n` are
/// looked at) that is last named by `slot`; a later entry wins over an
/// earlier one.
pub open spec fn slot_entry(names: Seq<Seq<char>>, n: nat, slot: nat) -> Option<usize>
    decreases n,
{
    if n == 0 {
        None
    } else if name_number(names[n - 1]) == Some(slot as usize) {
        Some((n - 1) as usize)
    } else {
        slot_entry(names, (n - 1) as nat, slot)
    }
}

/// The views of a run of names.
pub open spec fn names_view(v: Seq<String>) -> Seq<Seq<char>> {
    Seq::new(v.len(), |i: int| v[i]@)
}

/// Whether every numbered name among the first `n` is below `count`.
pub open spec fn numbers_below(names: Seq<Seq<char>>, n: nat, count: nat) -> bool {
    forall|i: int| 0 <= i < n ==> (#[trigger] name_number(names[i]) matches Some(v) ==> v < count)
}

/// Where the heap and Bloom filter files of each numbered table are: for
/// each of `count` slots, the directory entry of its heap file and of its
/// filter file.
pub struct TableSlots {
    heaps: Vec<Option<usize>>,
    blooms: Vec<Option<usize>>,
}

impl TableSlots {
    /// The heap file entry of each slot.
    pub closed spec fn heaps(&self) -> Seq<Option<usize>> {
        self.heaps@
    }

    /// The Bloom filter file entry of each slot.
    pub closed spec fn blooms(&self) -> Seq<Option<usize>> {
        self.blooms@
    }

    /// Sorts the heap and filter directory listings into `count` slots by
    /// number. The two listings are walked side by side, as far as the
    /// shorter goes; names that are not numbers are passed over. A number
    /// must be below `count`.
    pub fn new(count: usize, heap_names: &Vec<String>, bloom_names: &Vec<String>) -> (r: Self)
        requires
            numbers_below(names_view(heap_names@), min_len(heap_names@.len(), bloom_names@.len()), count as nat),
            numbers_below(names_view(bloom_names@), min_len(heap_names@.len(), bloom_names@.len()), count as nat),
        ensures
            r.heaps().len() == count,
            r.blooms().len() == count,
            forall|s: int|
                0 <= s < count ==> #[trigger] r.heaps()[s] == slot_entry(
                    names_view(heap_names@),
                    min_len(heap_names@.len(), bloom_names@.len()),
                    s as nat,
                ),
            forall|s: int|
                0 <= s < count ==> #[trigger] r.blooms()[s] == slot_entry(
                    names_view(bloom_names@),
                    min_len(heap_names@.len(), bloom_names@.len()),
                    s as nat,
                ),
    {
        let n = if heap_names.len() < bloom_names.len() {
            heap_names.len()
        } else {
            bloom_names.len()
        };
        let ghost hn = names_view(heap_names@);
        let ghost bn = names_view(bloom_names@);
        let mut heaps: Vec<Option<usize>> = Vec::new();
        let mut blooms: Vec<Option<usize>> = Vec::new();
        let mut s: usize = 0;
        while s < count
            invariant
                s <= count,
                heaps@.len() == s,
                blooms@.len() == s,
                forall|j: int| 0 <= j < s ==> #[trigger] heaps@[j] is None,
                forall|j: int| 0 <= j < s ==> #[trigger] blooms@[j] is None,
            decreases count - s,
        {
            heaps.push(None);
            blooms.push(None);
            s = s + 1;
        }
        let mut i: usize = 0;
        while i < n
            invariant
                n == min_len(heap_names@.len(), bloom_names@.len()),
                hn == names_view(heap_names@),
                bn == names_view(bloom_names@),
                numbers_below(hn, n as nat, count as nat),
                numbers_below(bn, n as nat, count as nat),
                i <= n,
                heaps@.len() == count,
                blooms@.len() == count,
                forall|j: int| 0 <= j < count ==> #[trigger] heaps@[j] == slot_entry(hn, i as nat, j as nat),
                forall|j: int| 0 <= j < count ==> #[trigger] blooms@[j] == slot_entry(bn, i as nat, j as nat),
            decreases n - i,
        {
            let h = parse_name_number(heap_names[i].as_str());
            assert(h == name_number(hn[i as int]));
            let b = parse_name_number(bloom_names[i].as_str());
            assert(b == name_number(bn[i as int]));
            match h {
                Some(v) => {
                    heaps.set(v, Some(i));
                },
                None => {},
            }
            match b {
                Some(v) => {
                    blooms.set(v, Some(i));
                },
                None => {},
            }
            assert forall|j: int| 0 <= j < count implies #[trigger] heaps@[j] == slot_entry(hn, (i + 1) as nat, j as nat) by {
                assert(slot_entry(hn, (i + 1) as nat, j as nat) == if name_number(hn[i as int]) == Some(j as usize) {
                    Some(i)
                } else {
                    slot_entry(hn, i as nat, j as nat)
                });
            }
            assert forall|j: int| 0 <= j < count implies #[trigger] blooms@[j] == slot_entry(bn, (i + 1) as nat, j as nat) by {
                assert(slot_entry(bn, (i + 1) as nat, j as nat) == if name_number(bn[i as int]) == Some(j as usize) {
                    Some(i)
                } else {
                    slot_entry(bn, i as nat, j as nat)
                });
            }
            i = i + 1;
        }
        TableSlots { heaps, blooms }
    }

    /// The table an index file belongs to: its slot, and the entries of its
    /// heap and filter files; none where the name is not a number below the
    /// count of slots, or the slot lacks a heap or a filter file.
    pub fn pair(&self, index_name: &str) -> (r: Option<(usize, usize, usize)>)
        ensures
            r == (match name_number(index_name@) {
                Some(s) => if s < self.heaps().len() && s < self.blooms().len() {
                    match (self.heaps()[s as int], self.blooms()[s as int]) {
                        (Some(h), Some(b)) => Some((s, h, b)),
                        _ => None,
                    }
                } else {
                    None
                },
                None => None,
            }),
    {
        let s = match parse_name_number(index_name) {
            Some(s) => s,
            None => return None,
        };
        if s >= self.heaps.len() || s >= self.blooms.len() {
            return None;
        }
        match (self.heaps[s], self.blooms[s]) {
            (Some(h), Some(b)) => Some((s, h, b)),
            _ => None,
        }
    }
}

/// The smaller of two lengths.
pub open spec fn min_len(a: nat, b: nat) -> nat {
    if a < b {
        a
    } else {
        b
    }
}

/// The values of the filled slots, in slot order.
pub open spec fn filled<T>(slots: Seq<Option<T>>) -> Seq<T>
    decreases slots.len(),
{
    if slots.len() == 0 {
        Seq::empty()
    } else {
        filled(slots.drop_last()) + match slots.last() {
            Some(x) => seq![x],
            None => Seq::empty(),
        }
    }
}

/// Keeps the values of the filled slots, in slot order.
pub fn flatten_slots<T>(slots: Vec<Option<T>>) -> (r: Vec<T>)
    ensures
        r@ == filled(slots@),
{
    let ghost all = slots@;
    let total = slots.len();
    let mut slots = slots;
    let mut reversed: Vec<Option<T>> = Vec::new();
    while slots.len() > 0
        invariant
            slots@.len() + reversed@.len() == all.len(),
            slots@ == all.take(slots@.len() as int),
            forall|j: int| 0 <= j < reversed@.len() ==> #[trigger] reversed@[j] == all[all.len() - 1 - j],
        decreases slots@.len(),
    {
        let ghost m = slots@.len() as int;
        let x = slots.pop().unwrap();
        assert(slots@ =~= all.take(m - 1));
        reversed.push(x);
    }
    let mut out: Vec<T> = Vec::new();
    let mut k: usize = 0;
    assert(all.take(0) =~= Seq::<Option<T>>::empty());
    while reversed.len() > 0
        invariant
            reversed@.len() + k == all.len(),
            total == all.len(),
            forall|j: int| 0 <= j < reversed@.len() ==> #[trigger] reversed@[j] == all[all.len() - 1 - j],
            out@ == filled(all.take(k as int)),
        decreases reversed@.len(),
    {
        let x = reversed.pop().unwrap();
        assert(x == all[k as int]);
        assert(all.take(k + 1).drop_last() =~= all.take(k as int));
        assert(all.take(k + 1).last() == x);
        match x {
            Some(v) => {
                out.push(v);
            },
            None => {},
        }
        k = k + 1;
    }
    assert(all.take(all.len() as int) =~= all);
    out
}

} // verus!
