use vstd::prelude::*;

verus! {

/// Edit distance between character sequences: the fewest insertions, deletions and
/// substitutions that turn `a` into `b`.
pub open spec fn edit_distance(a: Seq<char>, b: Seq<char>) -> nat
    decreases a.len() + b.len(),
{
    if a.len() == 0 {
        b.len()
    } else if b.len() == 0 {
        a.len()
    } else {
        let sub = edit_distance(a.drop_last(), b.drop_last()) + (if a.last() == b.last() {
            0nat
        } else {
            1nat
        });
        let del = edit_distance(a.drop_last(), b) + 1;
        let ins = edit_distance(a, b.drop_last()) + 1;
        min3_spec(sub, del, ins)
    }
}

pub open spec fn min3_spec(a: nat, b: nat, c: nat) -> nat {
    let m = if a <= b { a } else { b };
    if m <= c { m } else { c }
}

pub fn min3(a: usize, b: usize, c: usize) -> (r: usize)
    ensures
        r == min3_spec(a as nat, b as nat, c as nat),
{
    let m = if a <= b { a } else { b };
    if m <= c { m } else { c }
}

proof fn lemma_distance_bound(a: Seq<char>, b: Seq<char>)
    ensures
        edit_distance(a, b) <= a.len() + b.len(),
    decreases a.len() + b.len(),
{
    if a.len() > 0 && b.len() > 0 {
        lemma_distance_bound(a.drop_last(), b);
    }
}

/// The edit distance between `a` and `b`, counted in characters.
pub fn levenshtein(a: &str, b: &str) -> (r: usize)
    requires
        a@.len() + b@.len() < usize::MAX,
    ensures
        r == edit_distance(a@, b@),
{
    let ac = crate::command::chars_of(a);
    let bc = crate::command::chars_of(b);
    let n = ac.len();
    // column[y] holds the distance between a[..y] and b[..x] for the current x.
    let mut column: Vec<usize> = Vec::with_capacity(n + 1);
    let mut y: usize = 0;
    while y <= n
        invariant
            n == ac@.len(),
            n < usize::MAX,
            y <= n + 1,
            column@.len() == y,
            forall|k: int| 0 <= k < y ==> column@[k] == edit_distance(ac@.take(k), Seq::<char>::empty()),
        decreases n + 1 - y,
    {
        proof {
            assert(edit_distance(ac@.take(y as int), Seq::<char>::empty()) == y) by {
                reveal_with_fuel(edit_distance, 2);
            }
        }
        column.push(y);
        y = y + 1;
    }
    let mut x: usize = 0;
    while x < bc.len()
        invariant
            n == ac@.len(),
            ac@.len() + bc@.len() < usize::MAX,
            x <= bc@.len(),
            column@.len() == n + 1,
            forall|k: int| 0 <= k <= n ==> column@[k] == edit_distance(ac@.take(k), bc@.take(x as int)),
        decreases bc@.len() - x,
    {
        let ch2 = bc[x];
        let mut last_diag = column[0];
        proof {
            assert(ac@.take(0) =~= Seq::<char>::empty());
            assert(edit_distance(Seq::<char>::empty(), bc@.take(x + 1)) == x + 1);
        }
        column.set(0, x + 1);
        let mut yy: usize = 0;
        while yy < n
            invariant
                n == ac@.len(),
                ac@.len() + bc@.len() < usize::MAX,
                x < bc@.len(),
                ch2 == bc@[x as int],
                yy <= n,
                column@.len() == n + 1,
                last_diag == edit_distance(ac@.take(yy as int), bc@.take(x as int)),
                forall|k: int| 0 <= k <= yy ==> column@[k] == edit_distance(ac@.take(k), bc@.take(x + 1)),
                forall|k: int| yy < k <= n ==> column@[k] == edit_distance(ac@.take(k), bc@.take(x as int)),
            decreases n - yy,
        {
            let ch1 = ac[yy];
            let old_diag = column[yy + 1];
            let cost: usize = if ch1 == ch2 { 0 } else { 1 };
            proof {
                lemma_distance_bound(ac@.take(yy + 1), bc@.take(x as int));
                lemma_distance_bound(ac@.take(yy as int), bc@.take(x + 1));
                lemma_distance_bound(ac@.take(yy as int), bc@.take(x as int));
                let a1 = ac@.take(yy + 1);
                let b1 = bc@.take(x + 1);
                assert(a1.drop_last() =~= ac@.take(yy as int));
                assert(b1.drop_last() =~= bc@.take(x as int));
                assert(a1.last() == ch1);
                assert(b1.last() == ch2);
            }
            let v = min3(column[yy + 1] + 1, column[yy] + 1, last_diag + cost);
            column.set(yy + 1, v);
            last_diag = old_diag;
            yy = yy + 1;
        }
        x = x + 1;
    }
    proof {
        assert(ac@.take(n as int) =~= ac@);
        assert(bc@.take(bc@.len() as int) =~= bc@);
    }
    column[n]
}

} // verus!
