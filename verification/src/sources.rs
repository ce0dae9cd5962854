use vstd::prelude::*;

use crate::paths::{file_name, file_name_of};
use crate::text::{blank, is_blank, views};

verus! {

/// The file names of the rows of `sources`, other than row `skip`, that hold
/// more than white space and whose path has a file name, in row order.
pub open spec fn names_of(sources: Seq<Seq<char>>, skip: int) -> Seq<Seq<char>>
    decreases sources.len(),
{
    if sources.len() == 0 {
        Seq::empty()
    } else {
        let k = sources.len() - 1;
        let prev = names_of(sources.drop_last(), skip);
        if k != skip && !is_blank(sources[k]) && file_name_of(sources[k]) is Some {
            prev.push(file_name_of(sources[k])->0)
        } else {
            prev
        }
    }
}

/// How often `x` occurs in `names`.
pub open spec fn occurrences(names: Seq<Seq<char>>, x: Seq<char>) -> nat
    decreases names.len(),
{
    if names.len() == 0 {
        0
    } else {
        occurrences(names.drop_last(), x) + if names.last() == x {
            1nat
        } else {
            0nat
        }
    }
}

/// Each name that occurs more than once in `names`, once, in the order of
/// its second occurrence.
pub open spec fn repeated(names: Seq<Seq<char>>) -> Seq<Seq<char>>
    decreases names.len(),
{
    if names.len() == 0 {
        Seq::empty()
    } else {
        let prev = repeated(names.drop_last());
        let n = names.last();
        if names.drop_last().contains(n) && !prev.contains(n) {
            prev.push(n)
        } else {
            prev
        }
    }
}

/// No element occurs twice.
pub open spec fn distinct(s: Seq<Seq<char>>) -> bool {
    forall|i: int, j: int| 0 <= i < j < s.len() ==> s[i] != s[j]
}

/// A name occurs in a sequence exactly when it occurs at least once.
pub proof fn lemma_contains_occurrences(names: Seq<Seq<char>>, x: Seq<char>)
    ensures
        names.contains(x) <==> occurrences(names, x) >= 1,
    decreases names.len(),
{
    if names.len() > 0 {
        lemma_contains_occurrences(names.drop_last(), x);
        if names.contains(x) && names.last() != x {
            let i = choose|i: int| 0 <= i < names.len() && names[i] == x;
            assert(names.drop_last()[i] == x);
        }
        if names.drop_last().contains(x) {
            let i = choose|i: int| 0 <= i < names.drop_last().len() && names.drop_last()[i] == x;
            assert(names[i] == x);
        }
        if names.last() == x {
            assert(names[names.len() - 1] == x);
        }
    }
}

/// The repeated names are exactly those that occur twice or more, and none
/// of them is listed twice.
pub proof fn lemma_repeated(names: Seq<Seq<char>>)
    ensures
        forall|x: Seq<char>| repeated(names).contains(x) <==> occurrences(names, x) >= 2,
        distinct(repeated(names)),
    decreases names.len(),
{
    if names.len() > 0 {
        let p = names.drop_last();
        let n = names.last();
        lemma_repeated(p);
        lemma_contains_occurrences(p, n);
        let prev = repeated(p);
        assert forall|x: Seq<char>| repeated(names).contains(x) <==> occurrences(names, x) >= 2 by {
            lemma_contains_occurrences(p, x);
            if p.contains(n) && !prev.contains(n) {
                if repeated(names).contains(x) && x != n {
                    let i = choose|i: int|
                        0 <= i < repeated(names).len() && repeated(names)[i] == x;
                    assert(prev[i] == x);
                }
                if prev.contains(x) {
                    let i = choose|i: int| 0 <= i < prev.len() && prev[i] == x;
                    assert(repeated(names)[i] == x);
                }
                assert(repeated(names)[prev.len() as int] == n);
            }
        }
    }
}

/// Whether `name` is among `v`.
pub fn contains_string(v: &Vec<String>, name: &String) -> (r: bool)
    ensures
        r == views(v@).contains(name@),
{
    let mut i: usize = 0;
    while i < v.len()
        invariant
            i <= v@.len(),
            forall|k: int| 0 <= k < i ==> v@[k]@ != name@,
        decreases v@.len() - i,
    {
        if v[i] == *name {
            assert(views(v@)[i as int] == name@);
            return true;
        }
        i = i + 1;
    }
    proof {
        if views(v@).contains(name@) {
            let k = choose|k: int| 0 <= k < views(v@).len() && views(v@)[k] == name@;
            assert(v@[k]@ == name@);
        }
    }
    false
}

/// The file names that more than one source row shares, each once, in the
/// order in which the second row with it comes. Rows that hold only white
/// space and paths without a file name are passed over.
pub fn find_duplicates(sources: &[String]) -> (r: Vec<String>)
    ensures
        views(r@) == repeated(names_of(views(sources@), -1)),
        distinct(views(r@)),
        forall|x: Seq<char>|
            views(r@).contains(x) <==> #[trigger] occurrences(names_of(views(sources@), -1), x)
                >= 2,
{
    let mut seen: Vec<String> = Vec::new();
    let mut duplicates: Vec<String> = Vec::new();
    let n = sources.len();
    let mut k: usize = 0;
    while k < n
        invariant
            n == sources@.len(),
            k <= n,
            forall|x: Seq<char>|
                views(seen@).contains(x) <==> names_of(views(sources@).take(k as int), -1).contains(
                    x,
                ),
            views(duplicates@) == repeated(names_of(views(sources@).take(k as int), -1)),
        decreases n - k,
    {
        let ghost before = names_of(views(sources@).take(k as int), -1);
        assert(views(sources@).take(k + 1).drop_last() =~= views(sources@).take(k as int));
        assert(views(sources@).take(k + 1)[k as int] == sources@[k as int]@);
        if !blank(sources[k].as_str()) {
            match file_name(sources[k].as_str()) {
                Some(name) => {
                    let ghost after = names_of(views(sources@).take(k + 1), -1);
                    assert(after == before.push(name@));
                    assert(after.drop_last() =~= before);
                    if contains_string(&seen, &name) {
                        if !contains_string(&duplicates, &name) {
                            duplicates.push(name);
                            assert(views(duplicates@) =~= repeated(after));
                        }
                    } else {
                        let ghost old_seen = views(seen@);
                        assert(forall|x: Seq<char>| old_seen.contains(x) <==> before.contains(x));
                        seen.push(name);
                        assert(views(seen@) =~= old_seen.push(name@));
                        assert forall|x: Seq<char>|
                            views(seen@).contains(x) <==> after.contains(x) by {
                            if views(seen@).contains(x) {
                                let i = choose|i: int|
                                    0 <= i < views(seen@).len() && views(seen@)[i] == x;
                                if i < old_seen.len() {
                                    assert(old_seen[i] == x);
                                    assert(old_seen.contains(x));
                                    let j = choose|j: int| 0 <= j < before.len() && before[j] == x;
                                    assert(after[j] == x);
                                } else {
                                    assert(after[before.len() as int] == x);
                                }
                            }
                            if after.contains(x) {
                                let i = choose|i: int| 0 <= i < after.len() && after[i] == x;
                                if i < before.len() {
                                    assert(before[i] == x);
                                    assert(before.contains(x));
                                    let j = choose|j: int| 0 <= j < old_seen.len() && old_seen[j] == x;
                                    assert(views(seen@)[j] == x);
                                } else {
                                    assert(views(seen@)[old_seen.len() as int] == x);
                                }
                            }
                        }
                    }
                },
                None => {},
            }
        }
        k = k + 1;
    }
    assert(views(sources@).take(n as int) =~= views(sources@));
    proof {
        lemma_repeated(names_of(views(sources@), -1));
    }
    duplicates
}


/// How many of the rows of `s` from `idx` on hold more than white space.
pub open spec fn filled_from(s: Seq<Seq<char>>, idx: int) -> nat
    decreases s.len() - idx,
{
    if 0 <= idx < s.len() {
        (if is_blank(s[idx]) {
            0nat
        } else {
            1nat
        }) + filled_from(s, idx + 1)
    } else {
        0
    }
}

/// How many rows of `s` hold more than white space.
pub open spec fn filled_count(s: Seq<Seq<char>>) -> nat {
    filled_from(s, 0)
}

/// At most every row from `idx` on is filled.
pub proof fn lemma_filled_from_bound(s: Seq<Seq<char>>, idx: int)
    requires
        0 <= idx <= s.len(),
    ensures
        filled_from(s, idx) <= s.len() - idx,
    decreases s.len() - idx,
{
    if idx < s.len() {
        lemma_filled_from_bound(s, idx + 1);
    }
}

/// Changing a row before `idx` leaves the count from `idx` on as it was.
pub proof fn lemma_filled_from_update(s: Seq<Seq<char>>, j: int, x: Seq<char>, idx: int)
    requires
        0 <= j < idx,
        j < s.len(),
    ensures
        filled_from(s.update(j, x), idx) == filled_from(s, idx),
    decreases s.len() - idx,
{
    if 0 <= idx < s.len() {
        lemma_filled_from_update(s, j, x, idx + 1);
    }
}

/// How many rows of `sources` hold more than white space.
pub fn count_filled(sources: &Vec<String>) -> (r: usize)
    ensures
        r == filled_count(views(sources@)),
{
    let n = sources.len();
    let mut count: usize = 0;
    let mut k: usize = 0;
    while k < n
        invariant
            n == sources@.len(),
            k <= n,
            count <= k,
            count + filled_from(views(sources@), k as int) == filled_count(views(sources@)),
        decreases n - k,
    {
        assert(views(sources@)[k as int] == sources@[k as int]@);
        if !blank(sources[k].as_str()) {
            count = count + 1;
        }
        k = k + 1;
    }
    count
}

/// Walks the rows of `s` from `idx` on and writes the paths of `rest` one by
/// one into the rows that hold only white space, while `slots` allows more;
/// it stops when `slots` is spent or `rest` runs out. Gives the rows, the
/// paths left over and the slots left over.
pub open spec fn fill_blank_rows(
    s: Seq<Seq<char>>,
    rest: Seq<Seq<char>>,
    slots: nat,
    idx: int,
) -> (Seq<Seq<char>>, Seq<Seq<char>>, nat)
    decreases s.len() - idx,
{
    if idx < 0 || idx >= s.len() || slots == 0 {
        (s, rest, slots)
    } else if !is_blank(s[idx]) {
        fill_blank_rows(s, rest, slots, idx + 1)
    } else if rest.len() == 0 {
        (s, rest, slots)
    } else {
        fill_blank_rows(s.update(idx, rest[0]), rest.drop_first(), (slots - 1) as nat, idx + 1)
    }
}

/// Where freshly picked paths go: the first replaces row `i`; the others fill
/// the rows that hold only white space, then are appended, as long as fewer
/// than ten rows are filled.
pub open spec fn place_picked(sources: Seq<Seq<char>>, i: int, valid: Seq<Seq<char>>) -> Seq<
    Seq<char>,
> {
    let s1 = sources.update(i, valid[0]);
    let slots: nat = if filled_count(s1) < 10 {
        (10 - filled_count(s1)) as nat
    } else {
        0
    };
    let filled = fill_blank_rows(s1, valid.drop_first(), slots, 0);
    filled.0 + filled.1.take(
        if filled.2 < filled.1.len() {
            filled.2 as int
        } else {
            filled.1.len() as int
        },
    )
}

/// Filling keeps the number of rows; it changes only rows from `idx` on that
/// hold only white space; and where it neither spent its slots nor ran out of
/// paths, it spent one slot for each such row.
pub proof fn lemma_fill_blank_rows(s: Seq<Seq<char>>, rest: Seq<Seq<char>>, slots: nat, idx: int)
    requires
        0 <= idx <= s.len(),
    ensures
        ({
            let (s2, r, left) = fill_blank_rows(s, rest, slots, idx);
            &&& s2.len() == s.len()
            &&& forall|k: int|
                0 <= k < s.len() && (k < idx || !is_blank(s[k])) ==> #[trigger] s2[k] == s[k]
            &&& left <= slots
            &&& (left > 0 && r.len() > 0) ==> left + (s.len() - idx) - filled_from(s, idx)
                == slots
        }),
    decreases s.len() - idx,
{
    if idx >= s.len() || slots == 0 {
    } else if !is_blank(s[idx]) {
        lemma_fill_blank_rows(s, rest, slots, idx + 1);
    } else if rest.len() == 0 {
    } else {
        let s1 = s.update(idx, rest[0]);
        lemma_fill_blank_rows(s1, rest.drop_first(), (slots - 1) as nat, idx + 1);
        lemma_filled_from_update(s, idx, rest[0], idx + 1);
        let (s2, r, left) = fill_blank_rows(s, rest, slots, idx);
        assert forall|k: int|
            0 <= k < s.len() && (k < idx || !is_blank(s[k])) implies #[trigger] s2[k] == s[k] by {
            assert(s1[k] == s[k]);
        }
    }
}

/// Picking paths for a row never leaves more than ten rows, never removes a
/// row, never changes another row that holds a path, and puts the first
/// picked path in the row it was picked for unless a later one takes that
/// row because the first was only white space.
pub proof fn lemma_place_picked(sources: Seq<Seq<char>>, i: int, valid: Seq<Seq<char>>)
    requires
        0 <= i < sources.len() <= 10,
        valid.len() >= 1,
    ensures
        sources.len() <= place_picked(sources, i, valid).len() <= 10,
        forall|k: int|
            0 <= k < sources.len() && k != i && !is_blank(sources[k]) ==> #[trigger] place_picked(
                sources,
                i,
                valid,
            )[k] == sources[k],
        !is_blank(valid[0]) ==> place_picked(sources, i, valid)[i] == valid[0],
{
    let s1 = sources.update(i, valid[0]);
    lemma_filled_from_bound(s1, 0);
    let slots: nat = if filled_count(s1) < 10 {
        (10 - filled_count(s1)) as nat
    } else {
        0
    };
    lemma_fill_blank_rows(s1, valid.drop_first(), slots, 0);
    let (s2, r, left) = fill_blank_rows(s1, valid.drop_first(), slots, 0);
    let result = place_picked(sources, i, valid);
    assert forall|k: int|
        0 <= k < sources.len() && k != i && !is_blank(sources[k]) implies #[trigger] result[k]
        == sources[k] by {
        assert(s1[k] == sources[k]);
        assert(s2[k] == s1[k]);
        assert(result[k] == s2[k]);
    }
    if !is_blank(valid[0]) {
        assert(s2[i] == s1[i]);
        assert(result[i] == s2[i]);
    }
}


/// The file names of those of `paths` that have one, in order.
pub open spec fn picked_names(paths: Seq<Seq<char>>) -> Seq<Seq<char>>
    decreases paths.len(),
{
    if paths.len() == 0 {
        Seq::empty()
    } else {
        let prev = picked_names(paths.drop_last());
        match file_name_of(paths.last()) {
            Some(n) => prev.push(n),
            None => prev,
        }
    }
}

/// Sorts freshly picked paths, in order: a path whose file name another row
/// already uses, or an earlier kept path already has, is set aside and its
/// name reported; every other path is kept. Gives the kept paths, the
/// reported names and the names of the kept paths.
pub open spec fn screen(existing: Seq<Seq<char>>, paths: Seq<Seq<char>>) -> (
    Seq<Seq<char>>,
    Seq<Seq<char>>,
    Seq<Seq<char>>,
)
    decreases paths.len(),
{
    if paths.len() == 0 {
        (Seq::empty(), Seq::empty(), Seq::empty())
    } else {
        let (valid, dups, seen) = screen(existing, paths.drop_last());
        let p = paths.last();
        match file_name_of(p) {
            Some(n) => if existing.contains(n) || seen.contains(n) {
                (valid, dups.push(n), seen)
            } else {
                (valid.push(p), dups, seen.push(n))
            },
            None => (valid.push(p), dups, seen),
        }
    }
}

/// Every picked path is either kept or reported; the kept paths carry
/// pairwise different file names, none of which another row already uses.
pub proof fn lemma_screen(existing: Seq<Seq<char>>, paths: Seq<Seq<char>>)
    ensures
        ({
            let (valid, dups, seen) = screen(existing, paths);
            &&& seen == picked_names(valid)
            &&& distinct(seen)
            &&& forall|n: Seq<char>| seen.contains(n) ==> !existing.contains(n)
            &&& valid.len() + dups.len() == paths.len()
        }),
    decreases paths.len(),
{
    if paths.len() > 0 {
        lemma_screen(existing, paths.drop_last());
        let (valid0, dups0, seen0) = screen(existing, paths.drop_last());
        let (valid, dups, seen) = screen(existing, paths);
        let p = paths.last();
        assert(valid.len() > valid0.len() ==> valid.drop_last() =~= valid0 && valid.last() == p);
        if valid.len() > valid0.len() {
            assert(picked_names(valid) == picked_names(valid0) + match file_name_of(p) {
                Some(n) => seq![n],
                None => Seq::empty(),
            });
        }
        match file_name_of(p) {
            Some(n) => {
                if !(existing.contains(n) || seen0.contains(n)) {
                    assert(seen == seen0.push(n));
                    assert forall|a: int, b: int| 0 <= a < b < seen.len() implies seen[a]
                        != seen[b] by {
                        if b == seen0.len() {
                            assert(seen[a] == seen0[a]);
                            if seen0[a] == n {
                                assert(seen0.contains(n));
                            }
                        } else {
                            assert(seen[a] == seen0[a] && seen[b] == seen0[b]);
                        }
                    }
                    assert forall|m: Seq<char>| seen.contains(m) implies !existing.contains(m) by {
                        let j = choose|j: int| 0 <= j < seen.len() && seen[j] == m;
                        if j < seen0.len() {
                            assert(seen0[j] == m);
                            assert(seen0.contains(m));
                        }
                    }
                }
            },
            None => {},
        }
    }
}

/// Sorts freshly picked paths as `screen` says, against the file names of
/// the other rows. Gives the kept paths and the reported names.
pub fn screen_picked(existing: &Vec<String>, paths: Vec<String>) -> (r: (Vec<String>, Vec<String>))
    ensures
        views(r.0@) == screen(views(existing@), views(paths@)).0,
        views(r.1@) == screen(views(existing@), views(paths@)).1,
{
    let mut valid: Vec<String> = Vec::new();
    let mut duplicates: Vec<String> = Vec::new();
    let mut seen: Vec<String> = Vec::new();
    let n = paths.len();
    let mut k: usize = 0;
    while k < n
        invariant
            n == paths@.len(),
            k <= n,
            views(valid@) == screen(views(existing@), views(paths@).take(k as int)).0,
            views(duplicates@) == screen(views(existing@), views(paths@).take(k as int)).1,
            views(seen@) == screen(views(existing@), views(paths@).take(k as int)).2,
        decreases n - k,
    {
        assert(views(paths@).take(k + 1).drop_last() =~= views(paths@).take(k as int));
        assert(views(paths@).take(k + 1).last() == paths@[k as int]@);
        let path = paths[k].clone();
        match file_name(path.as_str()) {
            Some(name) => {
                if contains_string(existing, &name) || contains_string(&seen, &name) {
                    duplicates.push(name);
                    assert(views(duplicates@) =~= screen(views(existing@), views(paths@).take(k + 1)).1);
                } else {
                    seen.push(name);
                    valid.push(path);
                    assert(views(seen@) =~= screen(views(existing@), views(paths@).take(k + 1)).2);
                    assert(views(valid@) =~= screen(views(existing@), views(paths@).take(k + 1)).0);
                }
            },
            None => {
                valid.push(path);
                assert(views(valid@) =~= screen(views(existing@), views(paths@).take(k + 1)).0);
            },
        }
        k = k + 1;
    }
    assert(views(paths@).take(n as int) =~= views(paths@));
    (valid, duplicates)
}

/// The file names of the rows of `sources` other than row `skip`, as
/// `names_of` lists them.
pub fn names_except(sources: &Vec<String>, skip: usize) -> (r: Vec<String>)
    ensures
        views(r@) == names_of(views(sources@), skip as int),
{
    let mut names: Vec<String> = Vec::new();
    let n = sources.len();
    let mut k: usize = 0;
    while k < n
        invariant
            n == sources@.len(),
            k <= n,
            views(names@) == names_of(views(sources@).take(k as int), skip as int),
        decreases n - k,
    {
        assert(views(sources@).take(k + 1).drop_last() =~= views(sources@).take(k as int));
        assert(views(sources@).take(k + 1)[k as int] == sources@[k as int]@);
        if k != skip && !blank(sources[k].as_str()) {
            match file_name(sources[k].as_str()) {
                Some(name) => {
                    names.push(name);
                    assert(views(names@) =~= names_of(views(sources@).take(k + 1), skip as int));
                },
                None => {},
            }
        }
        k = k + 1;
    }
    assert(views(sources@).take(n as int) =~= views(sources@));
    names
}

/// Puts freshly picked paths into the rows as `place_picked` says.
pub fn place_picked_rows(sources: &mut Vec<String>, i: usize, valid: &Vec<String>)
    requires
        i < old(sources)@.len(),
        valid@.len() >= 1,
    ensures
        views(final(sources)@) == place_picked(views(old(sources)@), i as int, views(valid@)),
{
    let ghost v = views(valid@);
    let first = valid[0].clone();
    sources[i] = first;
    let ghost s1 = views(sources@);
    assert(s1 =~= views(old(sources)@).update(i as int, v[0]));
    let filled = count_filled(sources);
    let slots0: usize = if filled < 10 {
        10 - filled
    } else {
        0
    };
    let mut slots = slots0;
    let ghost target = fill_blank_rows(s1, v.drop_first(), slots0 as nat, 0);
    let n = sources.len();
    let mut next: usize = 1;
    let mut idx: usize = 0;
    assert(v.skip(1) =~= v.drop_first());
    while idx < n
        invariant
            n == sources@.len(),
            idx <= n,
            1 <= next <= valid@.len(),
            v == views(valid@),
            slots <= 10,
            fill_blank_rows(views(sources@), v.skip(next as int), slots as nat, idx as int)
                == target,
        ensures
            fill_blank_rows(views(sources@), v.skip(next as int), slots as nat, idx as int) == (
                views(sources@),
                v.skip(next as int),
                slots as nat,
            ),
            fill_blank_rows(views(sources@), v.skip(next as int), slots as nat, idx as int)
                == target,
            sources@.len() == n,
            1 <= next <= valid@.len(),
            slots <= 10,
        decreases n - idx,
    {
        if slots == 0 {
            break;
        }
        assert(views(sources@)[idx as int] == sources@[idx as int]@);
        if !blank(sources[idx].as_str()) {
            idx = idx + 1;
            continue;
        }
        if next < valid.len() {
            assert(v.skip(next as int)[0] == v[next as int]);
            assert(v.skip(next as int).drop_first() =~= v.skip(next + 1));
            let ghost before = views(sources@);
            let p = valid[next].clone();
            sources[idx] = p;
            assert(views(sources@) =~= before.update(idx as int, v[next as int]));
            slots = slots - 1;
            next = next + 1;
        } else {
            break;
        }
        idx = idx + 1;
    }
    let ghost rest = v.skip(next as int);
    let ghost s2 = views(sources@);
    let ghost left = slots;
    let ghost next0 = next;
    assert(rest.take(0) =~= Seq::<Seq<char>>::empty());
    assert(s2 + rest.take(0) =~= s2);
    while slots > 0 && next < valid.len()
        invariant
            next0 <= next <= valid@.len(),
            v == views(valid@),
            rest == v.skip(next0 as int),
            next - next0 + slots == left,
            slots <= 10,
            views(sources@) == s2 + rest.take(next - next0),
        decreases slots,
    {
        assert(rest[next - next0] == v[next as int]);
        assert(rest.take(next - next0 + 1) =~= rest.take(next - next0).push(v[next as int]));
        let ghost before = views(sources@);
        let p = valid[next].clone();
        sources.push(p);
        assert(views(sources@) =~= before.push(v[next as int]));
        assert(views(sources@) =~= s2 + rest.take(next - next0 + 1));
        slots = slots - 1;
        next = next + 1;
    }
    assert(target == (s2, rest, left as nat));
}


/// Keeps at most `max_take` of the picked paths, the first ones; says
/// whether some had to be dropped.
pub fn cap_picked(paths: Vec<String>, max_take: usize) -> (r: (Vec<String>, bool))
    ensures
        r.1 == (paths@.len() > max_take),
        r.1 ==> r.0@ == paths@.take(max_take as int),
        !r.1 ==> r.0@ == paths@,
{
    if paths.len() > max_take {
        let mut kept = paths;
        kept.truncate(max_take);
        (kept, true)
    } else {
        (paths, false)
    }
}


/// No element occurs twice exactly when each occurs at most once.
pub proof fn lemma_distinct_occurrences(s: Seq<Seq<char>>)
    ensures
        distinct(s) <==> forall|x: Seq<char>| #[trigger] occurrences(s, x) <= 1,
    decreases s.len(),
{
    if s.len() > 0 {
        let p = s.drop_last();
        let a = s.last();
        lemma_distinct_occurrences(p);
        lemma_contains_occurrences(p, a);
        if distinct(s) {
            assert forall|i: int, j: int| 0 <= i < j < p.len() implies p[i] != p[j] by {
                assert(s[i] == p[i] && s[j] == p[j]);
            }
            if p.contains(a) {
                let i = choose|i: int| 0 <= i < p.len() && p[i] == a;
                assert(s[i] == s[s.len() - 1]);
            }
            assert forall|x: Seq<char>| #[trigger] occurrences(s, x) <= 1 by {
                assert(occurrences(p, x) <= 1);
            }
        }
        if forall|x: Seq<char>| #[trigger] occurrences(s, x) <= 1 {
            assert forall|x: Seq<char>| #[trigger] occurrences(p, x) <= 1 by {
                assert(occurrences(s, x) <= 1);
            }
            assert(occurrences(s, a) <= 1);
            assert forall|i: int, j: int| 0 <= i < j < s.len() implies s[i] != s[j] by {
                if j == s.len() - 1 {
                    assert(s[i] == p[i]);
                    if s[i] == a {
                        assert(p.contains(a));
                    }
                } else {
                    assert(s[i] == p[i] && s[j] == p[j]);
                }
            }
        }
    }
}

/// No name is reported as taken twice exactly when the file names of the
/// filled rows are pairwise different.
pub proof fn lemma_no_duplicates_iff_distinct(rows: Seq<Seq<char>>)
    ensures
        repeated(names_of(rows, -1)).len() == 0 <==> distinct(names_of(rows, -1)),
{
    let names = names_of(rows, -1);
    lemma_repeated(names);
    lemma_distinct_occurrences(names);
    if repeated(names).len() == 0 {
        assert forall|x: Seq<char>| #[trigger] occurrences(names, x) <= 1 by {
            if occurrences(names, x) >= 2 {
                assert(repeated(names).contains(x));
            }
        }
    } else {
        let x = repeated(names)[0];
        assert(repeated(names).contains(x));
        assert(occurrences(names, x) >= 2);
    }
}

/// How often `x` is the file name of a filled row of `rows`.
pub open spec fn name_count(rows: Seq<Seq<char>>, x: Seq<char>) -> nat {
    occurrences(names_of(rows, -1), x)
}

/// Whether the row is filled and has the file name `x`.
pub open spec fn row_named(row: Seq<char>, x: Seq<char>) -> bool {
    !is_blank(row) && file_name_of(row) == Some(x)
}

proof fn lemma_name_count_last(rows: Seq<Seq<char>>, x: Seq<char>)
    requires
        rows.len() > 0,
    ensures
        name_count(rows, x) == name_count(rows.drop_last(), x) + if row_named(rows.last(), x) {
            1nat
        } else {
            0nat
        },
{
    let prev = names_of(rows.drop_last(), -1);
    let k = rows.len() - 1;
    assert(rows[k] == rows.last());
    if !is_blank(rows[k]) && file_name_of(rows[k]) is Some {
        let n = file_name_of(rows[k])->0;
        assert(prev.push(n).drop_last() =~= prev);
        assert(prev.push(n).last() == n);
    }
}

proof fn lemma_name_count_remove(rows: Seq<Seq<char>>, i: int, x: Seq<char>)
    requires
        0 <= i < rows.len(),
    ensures
        name_count(rows, x) == name_count(rows.remove(i), x) + if row_named(rows[i], x) {
            1nat
        } else {
            0nat
        },
    decreases rows.len(),
{
    lemma_name_count_last(rows, x);
    if i == rows.len() - 1 {
        assert(rows.remove(i) =~= rows.drop_last());
    } else {
        let r = rows.remove(i);
        assert(r.drop_last() =~= rows.drop_last().remove(i));
        assert(r.last() == rows.last());
        lemma_name_count_remove(rows.drop_last(), i, x);
        lemma_name_count_last(r, x);
        assert(rows.drop_last()[i] == rows[i]);
    }
}

/// Rows that hold the same paths in another order name each file name as
/// often.
pub proof fn lemma_name_count_reorder(rows: Seq<Seq<char>>, q: Seq<Seq<char>>, x: Seq<char>)
    requires
        rows.to_multiset() == q.to_multiset(),
    ensures
        name_count(rows, x) == name_count(q, x),
    decreases rows.len(),
{
    broadcast use vstd::seq_lib::group_to_multiset_ensures;
    broadcast use vstd::multiset::group_multiset_axioms;

    if rows.len() == 0 {
        assert(q.to_multiset().len() == 0);
        assert(q.len() == 0);
        assert(q =~= rows);
    } else {
        let a = rows.last();
        let p = rows.drop_last();
        assert(p.push(a) =~= rows);
        assert(rows.to_multiset() =~= p.to_multiset().insert(a));
        assert(rows.to_multiset().count(a) > 0);
        assert(q.contains(a));
        let j = choose|j: int| 0 <= j < q.len() && q[j] == a;
        assert(q.remove(j).to_multiset() =~= q.to_multiset().remove(a));
        assert(p.to_multiset() =~= rows.to_multiset().remove(a));
        lemma_name_count_reorder(p, q.remove(j), x);
        lemma_name_count_last(rows, x);
        lemma_name_count_remove(q, j, x);
    }
}

/// A sequence with no element twice holds each of its elements once.
proof fn lemma_distinct_multiset_count(s: Seq<Seq<char>>, x: Seq<char>)
    requires
        distinct(s),
    ensures
        s.to_multiset().count(x) == if s.contains(x) {
            1nat
        } else {
            0nat
        },
{
    broadcast use vstd::seq_lib::group_to_multiset_ensures;
    broadcast use vstd::multiset::group_multiset_axioms;

    assert forall|i: int, j: int| 0 <= i < s.len() && 0 <= j < s.len() && i != j implies s[i]
        != s[j] by {
        if i < j {
        } else {
        }
    }
    assert(s.no_duplicates());
    s.lemma_multiset_has_no_duplicates();
    assert(s.contains(x) <==> s.to_multiset().count(x) > 0);
    if s.contains(x) {
        assert(s.to_multiset().contains(x));
    }
}

/// Reordering the rows reorders the reported names and nothing more: the
/// names reported for the rows and for the same rows in another order are
/// the same, each as often.
pub proof fn lemma_find_duplicates_reorder(rows: Seq<Seq<char>>, q: Seq<Seq<char>>)
    requires
        rows.to_multiset() == q.to_multiset(),
    ensures
        repeated(names_of(rows, -1)).to_multiset() == repeated(names_of(q, -1)).to_multiset(),
{
    let a = repeated(names_of(rows, -1));
    let b = repeated(names_of(q, -1));
    lemma_repeated(names_of(rows, -1));
    lemma_repeated(names_of(q, -1));
    assert forall|x: Seq<char>| a.to_multiset().count(x) == b.to_multiset().count(x) by {
        lemma_name_count_reorder(rows, q, x);
        lemma_distinct_multiset_count(a, x);
        lemma_distinct_multiset_count(b, x);
        assert(a.contains(x) <==> b.contains(x));
    }
    assert(a.to_multiset() =~= b.to_multiset());
}

} // verus!
