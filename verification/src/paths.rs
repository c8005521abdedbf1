//! Paths as lists of names.

use vstd::prelude::*;

verus! {

/// What a list of names says.
pub open spec fn names(parts: Seq<String>) -> Seq<Seq<char>> {
    parts.map_values(|s: String| s@)
}

/// How many names two paths share at the start, from the `i`th on.
pub open spec fn shared(a: Seq<Seq<char>>, b: Seq<Seq<char>>, i: int) -> int
    decreases a.len() - i,
{
    if 0 <= i < a.len() && i < b.len() && a[i] == b[i] {
        shared(a, b, i + 1)
    } else {
        i
    }
}

/// Some steps up.
pub open spec fn ups(n: nat) -> Seq<Seq<char>> {
    Seq::new(n, |i: int| ".."@)
}

/// The way from a directory to a file: up to what they share, and down.
pub open spec fn way(from: Seq<Seq<char>>, to: Seq<Seq<char>>) -> Seq<Seq<char>> {
    let i = shared(from, to, 0);
    ups((from.len() - i) as nat) + to.skip(i)
}

/// Where the first `n` steps of a way lead.
pub open spec fn walked(from: Seq<Seq<char>>, steps: Seq<Seq<char>>, n: int) -> Seq<Seq<char>>
    decreases n,
{
    if n <= 0 {
        from
    } else {
        let here = walked(from, steps, n - 1);
        if steps[n - 1] == ".."@ && here.len() > 0 {
            here.drop_last()
        } else {
            here.push(steps[n - 1])
        }
    }
}

/// The way from a directory to a file.
pub fn relativize(from: &Vec<String>, to: &Vec<String>) -> (r: Vec<String>)
    ensures
        names(r@) == way(names(from@), names(to@)),
{
    let ghost a = names(from@);
    let ghost b = names(to@);
    let mut i: usize = 0;
    while i < from.len() && i < to.len() && from[i] == to[i]
        invariant
            a == names(from@),
            b == names(to@),
            i <= from@.len(),
            i <= to@.len(),
            shared(a, b, 0) == shared(a, b, i as int),
        decreases from.len() - i,
    {
        assert(a[i as int] == from@[i as int]@ && b[i as int] == to@[i as int]@);
        i = i + 1;
    }
    if i < from.len() && i < to.len() {
        assert(a[i as int] == from@[i as int]@ && b[i as int] == to@[i as int]@);
    }
    assert(shared(a, b, 0) == i);
    let mut out: Vec<String> = Vec::new();
    let mut k: usize = i;
    assert(names(out@) =~= ups(0));
    while k < from.len()
        invariant
            i <= k <= from@.len(),
            names(out@) == ups((k - i) as nat),
        decreases from.len() - k,
    {
        let ghost before = out@;
        out.push("..".to_owned());
        k = k + 1;
        assert(names(out@) =~= names(before).push(".."@));
        assert(ups((k - i) as nat) =~= ups((k - 1 - i) as nat).push(".."@));
    }
    let mut j: usize = i;
    assert(names(out@) =~= ups((a.len() - i) as nat) + b.subrange(i as int, i as int));
    while j < to.len()
        invariant
            b == names(to@),
            i <= j <= to@.len(),
            names(out@) == ups((a.len() - i) as nat) + b.subrange(i as int, j as int),
        decreases to.len() - j,
    {
        let ghost before = out@;
        out.push(to[j].clone());
        j = j + 1;
        assert(names(out@) =~= names(before).push(b[j - 1]));
        assert(b.subrange(i as int, j as int) =~= b.subrange(i as int, j - 1).push(b[j - 1]));
    }
    assert(b.subrange(i as int, j as int) =~= b.skip(i as int));
    out
}

proof fn lemma_shared(a: Seq<Seq<char>>, b: Seq<Seq<char>>, i: int)
    requires
        0 <= i <= a.len(),
        i <= b.len(),
        a.take(i) == b.take(i),
    ensures
        i <= shared(a, b, i) <= a.len(),
        shared(a, b, i) <= b.len(),
        a.take(shared(a, b, i)) == b.take(shared(a, b, i)),
    decreases a.len() - i,
{
    if i < a.len() && i < b.len() && a[i] == b[i] {
        assert(a.take(i + 1) =~= a.take(i).push(a[i]));
        assert(b.take(i + 1) =~= b.take(i).push(b[i]));
        lemma_shared(a, b, i + 1);
    }
}

proof fn lemma_up(from: Seq<Seq<char>>, steps: Seq<Seq<char>>, n: int)
    requires
        0 <= n <= from.len(),
        n <= steps.len(),
        forall|k: int| 0 <= k < n ==> #[trigger] steps[k] == ".."@,
    ensures
        walked(from, steps, n) == from.take(from.len() - n),
    decreases n,
{
    if n > 0 {
        lemma_up(from, steps, n - 1);
        assert(from.take(from.len() - n + 1).drop_last() =~= from.take(from.len() - n));
    } else {
        assert(from.take(from.len() as int) =~= from);
    }
}

proof fn lemma_down(from: Seq<Seq<char>>, to: Seq<Seq<char>>, i: int, n: int)
    requires
        i == shared(from, to, 0),
        from.len() - i <= n <= way(from, to).len(),
        forall|k: int| 0 <= k < to.len() ==> #[trigger] to[k] != ".."@,
    ensures
        walked(from, way(from, to), n) == to.take(i + n - (from.len() - i)),
    decreases n,
{
    let up: int = from.len() - i;
    assert(from.take(0) =~= to.take(0));
    lemma_shared(from, to, 0);
    if n == up {
        lemma_up(from, way(from, to), n);
        assert(from.take(from.len() - n) =~= to.take(i));
    } else {
        lemma_down(from, to, i, n - 1);
        let k: int = i + n - 1 - up;
        assert(way(from, to)[n - 1] == to[k]);
        assert(to.take(k + 1) =~= to.take(k).push(to[k]));
    }
}

/// The way from a directory leads to the file, wherever the two are.
pub proof fn law_way_leads_there(from: Seq<Seq<char>>, to: Seq<Seq<char>>)
    requires
        forall|k: int| 0 <= k < to.len() ==> #[trigger] to[k] != ".."@,
    ensures
        walked(from, way(from, to), way(from, to).len() as int) == to,
{
    assert(from.take(0) =~= to.take(0));
    lemma_shared(from, to, 0);
    lemma_down(from, to, shared(from, to, 0), way(from, to).len() as int);
    assert(to.take(to.len() as int) =~= to);
}

} // verus!
