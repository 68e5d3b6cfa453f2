//! The reporting snapshot: a row per posted message, a row per participant
//! and a log line, projected from what the session holds.

use vstd::prelude::*;

verus! {

/// The fields of a posted message that the report reads.
pub struct MessageHeader {
    /// The statement type, as text.
    pub type_: String,
    /// The signer's position, as the session configuration gives it.
    pub sender: usize,
    /// Whether the message carries an artifact.
    pub artifact: bool,
}

/// A posted message as the report shows it.
#[derive(Debug)]
pub struct Msg {
    pub id: usize,
    pub type_: String,
    /// The signer's position, as the session configuration gives it.
    pub sender: usize,
    pub artifact: bool,
}

/// A participant as the report shows it.
#[derive(Debug)]
pub struct TrusteeRow {
    pub id: usize,
    /// The participant's position, as the session configuration gives it.
    pub position: usize,
    /// The participant's local statement tags, sorted, separated by spaces.
    pub statement_data: String,
    /// The participant's local artifact tags, sorted, separated by spaces.
    pub artifact_data: String,
}

/// The snapshot returned by every session operation.
#[derive(Debug)]
pub struct Info {
    pub messages: Vec<Msg>,
    pub trustee_rows: Vec<TrusteeRow>,
    pub last_messages: Vec<Msg>,
    pub log: String,
}

/// `r` is the row of the message `m` posted at `id`.
pub open spec fn row_of(r: Msg, id: nat, m: MessageHeader) -> bool {
    &&& r.id == id
    &&& r.type_@ == m.type_@
    &&& r.sender == m.sender
    &&& r.artifact == m.artifact
}

impl Msg {
    /// The row of the message posted at `id`.
    pub fn from(id: usize, m: &MessageHeader) -> (r: Msg)
        ensures
            row_of(r, id as nat, *m),
    {
        Msg { id, type_: m.type_.clone(), sender: m.sender, artifact: m.artifact }
    }
}

/// Lexicographic order on text, character by character: the order of
/// `String`'s comparison.
pub open spec fn lex_le(a: Seq<char>, b: Seq<char>) -> bool
    decreases a.len(),
{
    if a.len() == 0 {
        true
    } else if b.len() == 0 {
        false
    } else if a[0] != b[0] {
        a[0] < b[0]
    } else {
        lex_le(a.drop_first(), b.drop_first())
    }
}

proof fn lemma_lex_total(a: Seq<char>, b: Seq<char>)
    ensures
        lex_le(a, b) || lex_le(b, a),
    decreases a.len(),
{
    if a.len() > 0 && b.len() > 0 && a[0] == b[0] {
        lemma_lex_total(a.drop_first(), b.drop_first());
    }
}

fn text_le(a: &String, b: &String) -> (r: bool)
    ensures
        r == lex_le(a@, b@),
{
    let sa = a.as_str();
    let sb = b.as_str();
    let la = sa.unicode_len();
    let lb = sb.unicode_len();
    let mut i: usize = 0;
    assert(a@.skip(0) =~= a@);
    assert(b@.skip(0) =~= b@);
    while i < la && i < lb
        invariant
            sa@ == a@,
            sb@ == b@,
            la == a@.len(),
            lb == b@.len(),
            i <= la,
            i <= lb,
            lex_le(a@, b@) == lex_le(a@.skip(i as int), b@.skip(i as int)),
        decreases la - i,
    {
        let ca = sa.get_char(i);
        let cb = sb.get_char(i);
        if ca != cb {
            assert(a@.skip(i as int)[0] == ca);
            assert(b@.skip(i as int)[0] == cb);
            return ca < cb;
        }
        assert(a@.skip(i as int).drop_first() =~= a@.skip(i as int + 1));
        assert(b@.skip(i as int).drop_first() =~= b@.skip(i as int + 1));
        i = i + 1;
    }
    if i == la {
        assert(a@.skip(i as int).len() == 0);
        true
    } else {
        assert(b@.skip(i as int).len() == 0);
        assert(a@.skip(i as int).len() > 0);
        false
    }
}

/// Text sorted in lexicographic order.
pub open spec fn sorted_text(s: Seq<String>) -> bool {
    forall|i: int, j: int| 0 <= i < j < s.len() ==> lex_le(#[trigger] s[i]@, #[trigger] s[j]@)
}

/// Sorts text lexicographically; the result is a rearrangement of the input.
pub fn sort_text(v: Vec<String>) -> (r: Vec<String>)
    ensures
        sorted_text(r@),
        r@.to_multiset() == v@.to_multiset(),
{
    broadcast use vstd::seq_lib::group_to_multiset_ensures;

    let mut r: Vec<String> = Vec::new();
    let mut k: usize = 0;
    while k < v.len()
        invariant
            k <= v@.len(),
            sorted_text(r@),
            r@.to_multiset() == v@.subrange(0, k as int).to_multiset(),
        decreases v@.len() - k,
    {
        let x = v[k].clone();
        let mut pos: usize = 0;
        while pos < r.len() && text_le(&r[pos], &x)
            invariant
                pos <= r@.len(),
                forall|j: int| 0 <= j < pos ==> lex_le(#[trigger] r@[j]@, x@),
            decreases r@.len() - pos,
        {
            pos = pos + 1;
        }
        proof {
            if pos < r@.len() {
                assert(!lex_le(r@[pos as int]@, x@));
                lemma_lex_total(r@[pos as int]@, x@);
            }
        }
        let ghost old_r = r@;
        r.insert(pos, x);
        proof {
            assert(r@ == old_r.insert(pos as int, x));
            assert forall|i: int, j: int| 0 <= i < j < r@.len() implies lex_le(
                #[trigger] r@[i]@,
                #[trigger] r@[j]@,
            ) by {
                if j < pos {
                } else if j == pos {
                } else if i < pos {
                    assert(lex_le(old_r[i]@, old_r[j - 1]@));
                } else if i == pos {
                    if j - 1 > pos {
                        assert(lex_le(old_r[pos as int]@, old_r[j - 1]@));
                        lemma_lex_trans(x@, old_r[pos as int]@, old_r[j - 1]@);
                    }
                } else {
                    assert(lex_le(old_r[i - 1]@, old_r[j - 1]@));
                }
            }
            assert(v@.subrange(0, k as int + 1) =~= v@.subrange(0, k as int).push(v@[k as int]));
            vstd::seq_lib::to_multiset_insert(old_r, pos as int, x);
            vstd::seq_lib::to_multiset_build(v@.subrange(0, k as int), v@[k as int]);
        }
        k = k + 1;
    }
    assert(v@.subrange(0, k as int) =~= v@);
    r
}

/// Words separated by single spaces.
pub open spec fn joined(s: Seq<Seq<char>>) -> Seq<char>
    decreases s.len(),
{
    if s.len() == 0 {
        Seq::empty()
    } else if s.len() == 1 {
        s[0]
    } else {
        joined(s.drop_last()) + seq![' '] + s.last()
    }
}

pub open spec fn texts_view(s: Seq<String>) -> Seq<Seq<char>> {
    s.map_values(|t: String| t@)
}

/// Text in strictly increasing lexicographic order: sorted, each once.
pub open spec fn strictly_sorted(w: Seq<Seq<char>>) -> bool {
    forall|i: int, j: int|
        0 <= i < j < w.len() ==> lex_le(#[trigger] w[i], #[trigger] w[j]) && w[i] != w[j]
}

/// The distinct tags in lexicographic order, separated by single spaces.
pub open spec fn is_tag_line(line: Seq<char>, tags: Seq<String>) -> bool {
    exists|w: Seq<Seq<char>>|
        strictly_sorted(w) && w.to_set() == texts_view(tags).to_set() && line == #[trigger] joined(w)
}

/// Drops repeated text from sorted text, keeping each once.
pub fn distinct_sorted(v: &Vec<String>) -> (r: Vec<String>)
    requires
        sorted_text(v@),
    ensures
        strictly_sorted(texts_view(r@)),
        texts_view(r@).to_set() == texts_view(v@).to_set(),
{
    let mut r: Vec<String> = Vec::new();
    let mut k: usize = 0;
    while k < v.len()
        invariant
            sorted_text(v@),
            k <= v@.len(),
            strictly_sorted(texts_view(r@)),
            texts_view(r@).to_set() == texts_view(v@.subrange(0, k as int)).to_set(),
            k == 0 ==> r@.len() == 0,
            k > 0 ==> r@.len() > 0 && r@.last()@ == v@[k - 1]@,
        decreases v@.len() - k,
    {
        let ghost old_r = r@;
        let ghost pre = texts_view(v@.subrange(0, k as int));
        assert(texts_view(v@.subrange(0, k as int + 1)) =~= pre.push(v@[k as int]@));
        proof {
            pre.lemma_push_to_set_commute(v@[k as int]@);
        }
        let same = r.len() > 0 && r[r.len() - 1] == v[k];
        if same {
            assert(texts_view(old_r).contains(v@[k as int]@)) by {
                assert(texts_view(old_r)[old_r.len() - 1] == v@[k as int]@);
            }
            assert(pre.to_set().insert(v@[k as int]@) =~= pre.to_set());
        } else {
            let x = v[k].clone();
            r.push(x);
            proof {
                let w = texts_view(r@);
                let ow = texts_view(old_r);
                assert(w =~= ow.push(v@[k as int]@));
                ow.lemma_push_to_set_commute(v@[k as int]@);
                if k > 0 {
                    let last = ow[ow.len() - 1];
                    assert(lex_le(v@[k - 1]@, v@[k as int]@));
                    assert(last != v@[k as int]@);
                    assert forall|i: int, j: int| 0 <= i < j < w.len() implies lex_le(
                        #[trigger] w[i],
                        #[trigger] w[j],
                    ) && w[i] != w[j] by {
                        if j == w.len() - 1 {
                            if i < ow.len() - 1 {
                                assert(lex_le(ow[i], last) && ow[i] != last);
                                lemma_lex_trans(ow[i], last, w[j]);
                                if ow[i] == w[j] {
                                    lemma_lex_antisym(last, w[j]);
                                }
                            }
                        } else {
                            assert(w[i] == ow[i] && w[j] == ow[j]);
                        }
                    }
                }
            }
        }
        k = k + 1;
    }
    assert(v@.subrange(0, k as int) =~= v@);
    r
}

/// Text and any rearrangement of it hold the same views.
proof fn lemma_same_views(a: Seq<String>, b: Seq<String>)
    requires
        a.to_multiset() == b.to_multiset(),
    ensures
        texts_view(a).to_set() == texts_view(b).to_set(),
{
    broadcast use vstd::seq_lib::group_to_multiset_ensures;

    assert forall|t: Seq<char>| texts_view(a).contains(t) implies texts_view(b).contains(t) by {
        let i = choose|i: int| 0 <= i < texts_view(a).len() && texts_view(a)[i] == t;
        assert(a.contains(a[i]));
        assert(b.to_multiset().count(a[i]) > 0);
        let j = choose|j: int| 0 <= j < b.len() && b[j] == a[i];
        assert(texts_view(b)[j] == t);
    }
    assert forall|t: Seq<char>| texts_view(b).contains(t) implies texts_view(a).contains(t) by {
        let i = choose|i: int| 0 <= i < texts_view(b).len() && texts_view(b)[i] == t;
        assert(b.contains(b[i]));
        assert(a.to_multiset().count(b[i]) > 0);
        let j = choose|j: int| 0 <= j < a.len() && a[j] == b[i];
        assert(texts_view(a)[j] == t);
    }
    assert(texts_view(a).to_set() =~= texts_view(b).to_set());
}

/// Joins words with single spaces.
pub fn join_words(v: &Vec<String>) -> (r: String)
    ensures
        r@ == joined(texts_view(v@)),
{
    let sep = " ";
    proof {
        reveal_strlit(" ");
    }
    let mut r = String::new();
    let mut i: usize = 0;
    while i < v.len()
        invariant
            i <= v@.len(),
            sep@ == seq![' '],
            r@ == joined(texts_view(v@.subrange(0, i as int))),
        decreases v@.len() - i,
    {
        let ghost pre = texts_view(v@.subrange(0, i as int));
        let ghost cur = texts_view(v@.subrange(0, i as int + 1));
        assert(cur.drop_last() =~= pre);
        if i > 0 {
            r.append(sep);
        } else {
            assert(r@ + cur[0] =~= cur[0]);
        }
        r.append(v[i].as_str());
        i = i + 1;
    }
    assert(v@.subrange(0, i as int) =~= v@);
    r
}

/// The distinct tags, sorted and joined into one line.
pub fn tag_line(tags: Vec<String>) -> (r: String)
    ensures
        is_tag_line(r@, tags@),
{
    let ghost given = tags@;
    let sorted = sort_text(tags);
    let distinct = distinct_sorted(&sorted);
    let r = join_words(&distinct);
    proof {
        lemma_same_views(sorted@, given);
        let w = texts_view(distinct@);
        assert(strictly_sorted(w) && w.to_set() == texts_view(given).to_set() && r@ == joined(w));
    }
    r
}

impl TrusteeRow {
    /// The row of the participant at `id`, with the given configuration
    /// position, whose local board holds the given statement and artifact
    /// tags.
    pub fn from(
        id: usize,
        position: usize,
        statement_tags: Vec<String>,
        artifact_tags: Vec<String>,
    ) -> (r: TrusteeRow)
        ensures
            r.id == id,
            r.position == position,
            is_tag_line(r.statement_data@, statement_tags@),
            is_tag_line(r.artifact_data@, artifact_tags@),
    {
        let statement_data = tag_line(statement_tags);
        let artifact_data = tag_line(artifact_tags);
        TrusteeRow { id, position, statement_data, artifact_data }
    }
}

impl Info {
    /// The snapshot of a session whose board holds the messages `board`,
    /// the last `board.len() - last_start` of which the most recent
    /// operation posted. Rows of the last messages are numbered from 0.
    pub fn new(
        board: &Vec<MessageHeader>,
        last_start: usize,
        trustee_rows: Vec<TrusteeRow>,
        log: String,
    ) -> (r: Info)
        requires
            last_start <= board@.len(),
        ensures
            r.messages@.len() == board@.len(),
            forall|i: int|
                0 <= i < board@.len() ==> row_of(
                    #[trigger] r.messages@[i],
                    i as nat,
                    board@[i],
                ),
            r.last_messages@.len() == board@.len() - last_start,
            forall|j: int|
                0 <= j < r.last_messages@.len() ==> row_of(
                    #[trigger] r.last_messages@[j],
                    j as nat,
                    board@[last_start + j],
                ),
            r.trustee_rows@ == trustee_rows@,
            r.log@ == log@,
    {
        let mut messages: Vec<Msg> = Vec::new();
        let mut i: usize = 0;
        while i < board.len()
            invariant
                i <= board@.len(),
                messages@.len() == i,
                forall|k: int|
                    0 <= k < i ==> row_of(
                        #[trigger] messages@[k],
                        k as nat,
                        board@[k],
                    ),
            decreases board@.len() - i,
        {
            messages.push(Msg::from(i, &board[i]));
            i = i + 1;
        }
        let mut last_messages: Vec<Msg> = Vec::new();
        let mut j: usize = 0;
        let count = board.len() - last_start;
        while j < count
            invariant
                last_start <= board@.len(),
                count == board@.len() - last_start,
                board@.len() == board.len(),
                j <= count,
                last_messages@.len() == j,
                forall|k: int|
                    0 <= k < j ==> row_of(
                        #[trigger] last_messages@[k],
                        k as nat,
                        board@[last_start + k],
                    ),
            decreases count - j,
        {
            last_messages.push(Msg::from(j, &board[last_start + j]));
            j = j + 1;
        }
        Info { messages, trustee_rows, last_messages, log }
    }
}

proof fn lemma_lex_antisym(a: Seq<char>, b: Seq<char>)
    requires
        lex_le(a, b),
        lex_le(b, a),
    ensures
        a == b,
    decreases a.len(),
{
    if a.len() > 0 && b.len() > 0 {
        lemma_lex_antisym(a.drop_first(), b.drop_first());
        assert(a =~= seq![a[0]] + a.drop_first());
        assert(b =~= seq![b[0]] + b.drop_first());
    }
}

proof fn lemma_lex_trans(a: Seq<char>, b: Seq<char>, c: Seq<char>)
    requires
        lex_le(a, b),
        lex_le(b, c),
    ensures
        lex_le(a, c),
    decreases a.len(),
{
    if a.len() > 0 && b.len() > 0 && c.len() > 0 {
        if a[0] == b[0] && b[0] == c[0] {
            lemma_lex_trans(a.drop_first(), b.drop_first(), c.drop_first());
        }
    }
}

} // verus!
