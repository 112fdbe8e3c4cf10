//! Splitting lines into words and joining words back into lines.

use vstd::prelude::*;
use vstd::string::StringExecFns;

verus! {

/// The views of a sequence of strings.
pub open spec fn views_of(v: Seq<String>) -> Seq<Seq<char>> {
    v.map_values(|s: String| s@)
}

/// The words of a line: its maximal runs of non-whitespace characters, in
/// order.  Depends on the characters of the line alone.
pub uninterp spec fn whitespace_split(s: Seq<char>) -> Seq<Seq<char>>;

/// Relies on `str::split_whitespace`: the words of the line, in order,
/// each a non-empty run of non-whitespace characters.
#[verifier::external_body]
pub fn split_words(s: &str) -> (r: Vec<String>)
    ensures
        views_of(r@) == whitespace_split(s@),
        forall|i: int| 0 <= i < r@.len() ==> (#[trigger] r@[i])@.len() > 0,
{
    let mut out: Vec<String> = Vec::new();
    for word in s.split_whitespace() {
        out.push(word.to_string());
    }
    out
}

/// The words joined with single spaces.
pub open spec fn join_spec(ws: Seq<Seq<char>>) -> Seq<char>
    decreases ws.len(),
{
    if ws.len() == 0 {
        Seq::empty()
    } else if ws.len() == 1 {
        ws[0]
    } else {
        ws[0] + seq![' '] + join_spec(ws.drop_first())
    }
}

/// Joining one more word appends a space and the word, except at the front.
pub proof fn lemma_join_push(ws: Seq<Seq<char>>, w: Seq<char>)
    ensures
        ws.len() == 0 ==> join_spec(ws.push(w)) == w,
        ws.len() > 0 ==> join_spec(ws.push(w)) == join_spec(ws) + seq![' '] + w,
    decreases ws.len(),
{
    if ws.len() == 0 {
        assert(ws.push(w)[0] == w);
        assert(join_spec(ws.push(w)) == w);
    } else if ws.len() == 1 {
        assert(ws.push(w)[0] == ws[0]);
        assert(ws.push(w).drop_first() =~= seq![w]);
        assert(join_spec(seq![w]) == w);
        assert(join_spec(ws.push(w)) == ws[0] + seq![' '] + w);
        assert(join_spec(ws) == ws[0]);
    } else {
        assert(ws.push(w)[0] == ws[0]);
        assert(ws.push(w).drop_first() =~= ws.drop_first().push(w));
        lemma_join_push(ws.drop_first(), w);
        assert(join_spec(ws.push(w)) == ws[0] + seq![' '] + join_spec(ws.drop_first().push(w)));
        assert(ws[0] + seq![' '] + (join_spec(ws.drop_first()) + seq![' '] + w) =~= (ws[0]
            + seq![' '] + join_spec(ws.drop_first())) + seq![' '] + w);
    }
}

/// Join words with single spaces.
pub fn join_words(v: &Vec<String>) -> (r: String)
    ensures
        r@ == join_spec(views_of(v@)),
{
    let ghost ws = views_of(v@);
    let mut out: String = String::new();
    let mut i: usize = 0;
    while i < v.len()
        invariant
            i <= v@.len(),
            ws == views_of(v@),
            out@ == join_spec(ws.take(i as int)),
        decreases v@.len() - i,
    {
        if i > 0 {
            out.append(" ");
            proof {
                reveal_strlit(" ");
                assert(" "@ =~= seq![' ']);
            }
        }
        out.append(v[i].as_str());
        proof {
            lemma_join_push(ws.take(i as int), ws[i as int]);
            assert(ws.take(i + 1) =~= ws.take(i as int).push(ws[i as int]));
        }
        i = i + 1;
    }
    proof {
        assert(ws.take(v@.len() as int) =~= ws);
    }
    out
}

} // verus!
