//! Joining lists of names into an English phrase: "a", "a and b",
//! "a, b, and c".

use vstd::prelude::*;
use vstd::string::StringExecFns;

verus! {

/// The views of a list of strings.
pub open spec fn strings_view(elts: Seq<String>) -> Seq<Seq<char>> {
    elts.map_values(|s: String| s@)
}

/// The elements joined with `", "` between each pair.
pub open spec fn comma_join(elts: Seq<Seq<char>>) -> Seq<char>
    decreases elts.len(),
{
    if elts.len() <= 1 {
        if elts.len() == 0 {
            Seq::empty()
        } else {
            elts[0]
        }
    } else {
        elts[0] + seq![',', ' '] + comma_join(elts.drop_first())
    }
}

/// The whole phrase: one element stands alone; two are joined by the
/// conjunction; three or more are comma-separated with the conjunction
/// before the last.
pub open spec fn join_phrase(conjunction: Seq<char>, elts: Seq<Seq<char>>) -> Seq<char> {
    if elts.len() == 1 {
        elts[0]
    } else if elts.len() == 2 {
        elts[0] + seq![' '] + conjunction + seq![' '] + elts[1]
    } else {
        comma_join(elts.drop_last()) + seq![',', ' '] + conjunction + seq![' '] + elts.last()
    }
}

/// Extending a comma-joined list by one element appends a separator and
/// the element.
proof fn lemma_comma_join_snoc(elts: Seq<Seq<char>>, x: Seq<char>)
    requires
        elts.len() >= 1,
    ensures
        comma_join(elts.push(x)) == comma_join(elts) + seq![',', ' '] + x,
    decreases elts.len(),
{
    if elts.len() == 1 {
        assert(elts.push(x)[0] == elts[0]);
        assert(elts.push(x).drop_first() =~= seq![x]);
        assert(comma_join(seq![x]) == x);
    } else {
        assert(elts.push(x)[0] == elts[0]);
        assert(elts.push(x).drop_first() =~= elts.drop_first().push(x));
        lemma_comma_join_snoc(elts.drop_first(), x);
        assert(elts[0] + seq![',', ' '] + (comma_join(elts.drop_first()) + seq![',', ' '] + x)
            =~= (elts[0] + seq![',', ' '] + comma_join(elts.drop_first())) + seq![',', ' '] + x);
    }
}

/// Joins at least one element with the given conjunction.
fn join_with(conjunction: &str, elts: Vec<String>) -> (r: String)
    requires
        elts@.len() >= 1,
    ensures
        r@ == join_phrase(conjunction@, strings_view(elts@)),
{
    let n = elts.len();
    if n == 1 {
        let r = String::from_str(elts[0].as_str());
        proof {
            assert(strings_view(elts@)[0] == elts@[0]@);
        }
        r
    } else if n == 2 {
        let mut r = String::from_str(elts[0].as_str());
        r.append(" ");
        r.append(conjunction);
        r.append(" ");
        r.append(elts[1].as_str());
        proof {
            reveal_strlit(" ");
            assert(" "@ =~= seq![' ']);
            assert(r@ =~= strings_view(elts@)[0] + seq![' '] + conjunction@ + seq![' ']
                + strings_view(elts@)[1]);
        }
        r
    } else {
        let mut r = String::from_str(elts[0].as_str());
        let ghost views = strings_view(elts@);
        proof {
            assert(views.drop_last().take(1) =~= seq![views[0]]);
            assert(comma_join(views.drop_last().take(1)) == views[0]);
        }
        let mut i: usize = 1;
        while i < n - 1
            invariant
                1 <= i <= n - 1,
                n == elts@.len(),
                n >= 3,
                views == strings_view(elts@),
                r@ == comma_join(views.drop_last().take(i as int)),
            decreases n - 1 - i,
        {
            r.append(", ");
            r.append(elts[i].as_str());
            proof {
                reveal_strlit(", ");
                assert(", "@ =~= seq![',', ' ']);
                assert(views.drop_last().take(i as int).push(views[i as int]) =~= views
                    .drop_last().take(i as int + 1));
                lemma_comma_join_snoc(views.drop_last().take(i as int), views[i as int]);
                assert(r@ =~= comma_join(views.drop_last().take(i as int)) + seq![',', ' ']
                    + views[i as int]);
            }
            i = i + 1;
        }
        r.append(", ");
        r.append(conjunction);
        r.append(" ");
        r.append(elts[n - 1].as_str());
        proof {
            reveal_strlit(", ");
            reveal_strlit(" ");
            assert(", "@ =~= seq![',', ' ']);
            assert(" "@ =~= seq![' ']);
            assert(views.drop_last().take(n - 1) =~= views.drop_last());
            assert(views.last() == elts@[n - 1]@);
            assert(r@ =~= comma_join(views.drop_last()) + seq![',', ' '] + conjunction@
                + seq![' '] + views.last());
        }
        r
    }
}

/// Joins at least one element with "and".
pub fn join(elts: Vec<String>) -> (r: String)
    requires
        elts@.len() >= 1,
    ensures
        r@ == join_phrase("and"@, strings_view(elts@)),
{
    join_with("and", elts)
}

/// Joins the elements with "and", or nothing for an empty list.
pub fn join_opt(elts: Vec<String>) -> (r: Option<String>)
    ensures
        (r is Some) == (elts@.len() >= 1),
        r matches Some(s) ==> s@ == join_phrase("and"@, strings_view(elts@)),
{
    if elts.len() == 0 {
        None
    } else {
        Some(join(elts))
    }
}

} // verus!
