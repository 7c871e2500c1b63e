use vstd::prelude::*;

verus! {

/// A string made of `length` dashes, used to rule off sections of a report.
pub fn make_line(length: usize) -> (r: String)
    ensures
        r@ == Seq::new(length as nat, |_i: int| '-'),
{
    let mut line = String::new();
    let mut i: usize = 0;
    while i < length
        invariant
            i <= length,
            line@ == Seq::new(i as nat, |_i: int| '-'),
        decreases length - i,
    {
        proof {
            reveal_strlit("-");
        }
        line.append("-");
        i = i + 1;
        assert(line@ =~= Seq::new(i as nat, |_i: int| '-'));
    }
    line
}

} // verus!
