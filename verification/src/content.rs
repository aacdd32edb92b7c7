//! Text content made of raw strings, tagged parts and concatenations, shown
//! up to a limit of visible characters.
use vstd::prelude::*;

verus! {

/// A piece of text to animate. Only the characters of `Raw` parts are
/// visible and counted; a `Tag` wraps its content in markup that is written
/// around it but not counted.
pub enum Content {
    Raw(String),
    Tag { prefix: String, suffix: String, content: Box<Content> },
    Concatenation(Vec<Content>),
}

/// The smaller of two numbers.
pub open spec fn min_nat(a: nat, b: nat) -> nat {
    if a <= b {
        a
    } else {
        b
    }
}

/// The number of visible characters of a content.
pub open spec fn text_len(c: Content) -> nat
    decreases c,
{
    match c {
        Content::Raw(s) => s@.len(),
        Content::Tag { content, .. } => text_len(*content),
        Content::Concatenation(v) => seq_text_len(v@),
    }
}

/// The number of visible characters of a sequence of contents.
pub open spec fn seq_text_len(s: Seq<Content>) -> nat
    decreases s,
{
    if s.len() == 0 {
        0
    } else {
        seq_text_len(s.drop_last()) + text_len(s.last())
    }
}

/// What a content shows when at most `limit` visible characters may be
/// shown: nothing at all for a limit of zero; otherwise the first characters
/// of each raw part, in order, while the limit lasts, with the markup of each
/// tag around what its content shows.
pub open spec fn rendered(c: Content, limit: nat) -> Seq<char>
    decreases c,
{
    if limit == 0 {
        Seq::empty()
    } else {
        match c {
            Content::Raw(s) => s@.take(min_nat(limit, s@.len()) as int),
            Content::Tag { prefix, suffix, content } => prefix@ + rendered(*content, limit)
                + suffix@,
            Content::Concatenation(v) => seq_rendered(v@, limit),
        }
    }
}

/// What a sequence of contents shows under a limit: each part in turn, with
/// the limit that the visible characters of the parts before it leave.
pub open spec fn seq_rendered(s: Seq<Content>, limit: nat) -> Seq<char>
    decreases s,
{
    if s.len() == 0 {
        Seq::empty()
    } else {
        let before = s.drop_last();
        seq_rendered(before, limit) + rendered(
            s.last(),
            (limit - min_nat(limit, seq_text_len(before))) as nat,
        )
    }
}

impl Content {
    /// The number of visible characters.
    pub fn len(&self) -> (n: usize)
        requires
            text_len(*self) <= usize::MAX,
        ensures
            n == text_len(*self),
        decreases self,
    {
        match self {
            Content::Raw(s) => s.as_str().unicode_len(),
            Content::Tag { content, .. } => content.len(),
            Content::Concatenation(v) => {
                let mut acc: usize = 0;
                let mut i: usize = 0;
                while i < v.len()
                    invariant
                        0 <= i <= v.len(),
                        *self == Content::Concatenation(*v),
                        text_len(*self) == seq_text_len(v@),
                        seq_text_len(v@) <= usize::MAX,
                        acc == seq_text_len(v@.take(i as int)),
                    decreases v.len() - i,
                {
                    proof {
                        assert(v@.take(i + 1).drop_last() =~= v@.take(i as int));
                        lemma_seq_text_len_prefix(v@, i + 1, v@.len() as int);
                        assert(v@.take(v@.len() as int) =~= v@);
                    }
                    let n = v[i].len();
                    acc = acc + n;
                    i = i + 1;
                }
                proof {
                    assert(v@.take(i as int) =~= v@);
                }
                acc
            },
        }
    }

    /// Writes what the content shows under `limit` to `out`, and returns the
    /// number of visible characters written.
    pub fn write(&self, out: &mut String, limit: usize) -> (amount: usize)
        ensures
            final(out)@ == old(out)@ + rendered(*self, limit as nat),
            amount == min_nat(limit as nat, text_len(*self)),
        decreases self,
    {
        if limit > 0 {
            match self {
                Content::Raw(s) => {
                    let n = s.as_str().unicode_len();
                    let k = if limit < n {
                        limit
                    } else {
                        n
                    };
                    out.append(s.as_str().substring_char(0, k));
                    k
                },
                Content::Tag { prefix, suffix, content } => {
                    out.append(prefix.as_str());
                    let amount = content.write(out, limit);
                    out.append(suffix.as_str());
                    proof {
                        assert(out@ =~= old(out)@ + rendered(*self, limit as nat));
                    }
                    amount
                },
                Content::Concatenation(v) => {
                    let ghost start = out@;
                    let mut amount: usize = 0;
                    let mut i: usize = 0;
                    proof {
                        assert(v@.take(0) =~= Seq::<Content>::empty());
                        assert(v@.take(v@.len() as int) =~= v@);
                    }
                    while i < v.len()
                        invariant
                            0 <= i <= v.len(),
                            0 < limit,
                            *self == Content::Concatenation(*v),
                            v@.take(v@.len() as int) == v@,
                            rendered(*self, limit as nat) == seq_rendered(v@, limit as nat),
                            text_len(*self) == seq_text_len(v@),
                            amount == min_nat(limit as nat, seq_text_len(v@.take(i as int))),
                            out@ == start + seq_rendered(v@.take(i as int), limit as nat),
                        ensures
                            amount == min_nat(limit as nat, seq_text_len(v@)),
                            out@ == start + seq_rendered(v@, limit as nat),
                        decreases v.len() - i,
                    {
                        if limit - amount == 0 {
                            proof {
                                lemma_seq_text_len_prefix(v@, i as int, v@.len() as int);
                                lemma_seq_rendered_saturated(v@, i as int, v@.len() as int, limit as nat);
                                assert(v@.take(v@.len() as int) =~= v@);
                            }
                            break;
                        }
                        let a = v[i].write(out, limit - amount);
                        proof {
                            let t = v@.take(i + 1);
                            assert(t.drop_last() =~= v@.take(i as int));
                            assert(t.last() == v@[i as int]);
                            assert(out@ =~= start + seq_rendered(t, limit as nat));
                        }
                        amount = amount + a;
                        i = i + 1;
                        proof {
                            if i == v.len() {
                                assert(v@.take(i as int) =~= v@);
                            }
                        }
                    }
                    amount
                },
            }
        } else {
            proof {
                assert(out@ =~= old(out)@ + rendered(*self, limit as nat));
            }
            0
        }
    }
}

/// The visible length of a prefix grows with the prefix.
pub proof fn lemma_seq_text_len_prefix(s: Seq<Content>, i: int, j: int)
    requires
        0 <= i <= j <= s.len(),
    ensures
        seq_text_len(s.take(i)) <= seq_text_len(s.take(j)),
    decreases j - i,
{
    if i < j {
        lemma_seq_text_len_prefix(s, i, j - 1);
        assert(s.take(j).drop_last() =~= s.take(j - 1));
    }
}

/// Once the parts before have used the whole limit, the parts after show
/// nothing.
pub proof fn lemma_seq_rendered_saturated(s: Seq<Content>, i: int, j: int, limit: nat)
    requires
        0 <= i <= j <= s.len(),
        seq_text_len(s.take(i)) >= limit,
    ensures
        seq_rendered(s.take(j), limit) == seq_rendered(s.take(i), limit),
    decreases j - i,
{
    if i < j {
        lemma_seq_rendered_saturated(s, i, j - 1, limit);
        lemma_seq_text_len_prefix(s, i, j - 1);
        let t = s.take(j);
        assert(t.drop_last() =~= s.take(j - 1));
        assert(rendered(t.last(), 0) == Seq::<char>::empty());
        assert(seq_rendered(t, limit) =~= seq_rendered(s.take(j - 1), limit));
    }
}

/// Law: once the limit exceeds the number of visible characters, a higher
/// limit shows exactly the same text.
pub proof fn lemma_rendered_saturates(c: Content, l1: nat, l2: nat)
    requires
        text_len(c) < l1,
        text_len(c) < l2,
    ensures
        rendered(c, l1) == rendered(c, l2),
    decreases c,
{
    match c {
        Content::Raw(s) => {},
        Content::Tag { content, .. } => {
            lemma_rendered_saturates(*content, l1, l2);
        },
        Content::Concatenation(v) => {
            lemma_seq_rendered_saturates(v@, l1, l2);
        },
    }
}

/// A sequence of contents under two limits above its visible length shows
/// the same text.
pub proof fn lemma_seq_rendered_saturates(s: Seq<Content>, l1: nat, l2: nat)
    requires
        seq_text_len(s) < l1,
        seq_text_len(s) < l2,
    ensures
        seq_rendered(s, l1) == seq_rendered(s, l2),
    decreases s,
{
    if s.len() > 0 {
        let before = s.drop_last();
        lemma_seq_rendered_saturates(before, l1, l2);
        let r1 = (l1 - min_nat(l1, seq_text_len(before))) as nat;
        let r2 = (l2 - min_nat(l2, seq_text_len(before))) as nat;
        lemma_rendered_saturates(s.last(), r1, r2);
    }
}

/// The visible text of a content: its raw strings, in order, without any
/// markup.
pub open spec fn visible(c: Content) -> Seq<char>
    decreases c,
{
    match c {
        Content::Raw(s) => s@,
        Content::Tag { content, .. } => visible(*content),
        Content::Concatenation(v) => seq_visible(v@),
    }
}

/// The visible text of a sequence of contents, one after another.
pub open spec fn seq_visible(s: Seq<Content>) -> Seq<char>
    decreases s,
{
    if s.len() == 0 {
        Seq::empty()
    } else {
        seq_visible(s.drop_last()) + visible(s.last())
    }
}

/// `e` is `c` with all its markup taken out: the same shape and the same raw
/// strings, with every tag's prefix and suffix empty.
pub open spec fn markup_erased(e: Content, c: Content) -> bool
    decreases c,
{
    match c {
        Content::Raw(s) => e matches Content::Raw(es) && es@ == s@,
        Content::Tag { content, .. } => e matches Content::Tag { prefix, suffix, content: ec }
            && prefix@.len() == 0 && suffix@.len() == 0 && markup_erased(*ec, *content),
        Content::Concatenation(v) => e matches Content::Concatenation(ev) && seq_markup_erased(
            ev@,
            v@,
        ),
    }
}

/// Each content of `es` is the one of `cs` at the same place with its markup
/// taken out.
pub open spec fn seq_markup_erased(es: Seq<Content>, cs: Seq<Content>) -> bool
    decreases cs,
{
    if cs.len() == 0 {
        es.len() == 0
    } else {
        &&& es.len() == cs.len()
        &&& seq_markup_erased(es.drop_last(), cs.drop_last())
        &&& markup_erased(es.last(), cs.last())
    }
}

/// Law: the visible length of a content is the number of characters of its
/// raw strings.
pub proof fn lemma_text_len_is_visible_len(c: Content)
    ensures
        text_len(c) == visible(c).len(),
    decreases c,
{
    match c {
        Content::Raw(s) => {},
        Content::Tag { content, .. } => {
            lemma_text_len_is_visible_len(*content);
        },
        Content::Concatenation(v) => {
            lemma_seq_text_len_is_visible_len(v@);
        },
    }
}

/// The visible length of a sequence of contents is the length of its visible
/// text.
pub proof fn lemma_seq_text_len_is_visible_len(s: Seq<Content>)
    ensures
        seq_text_len(s) == seq_visible(s).len(),
    decreases s,
{
    if s.len() > 0 {
        lemma_seq_text_len_is_visible_len(s.drop_last());
        lemma_text_len_is_visible_len(s.last());
    }
}

/// Law: under a limit `L`, the visible characters that a content shows are
/// exactly the first `min(L, text_len(c))` characters of its visible text:
/// what the content with its markup taken out shows is that prefix, so each
/// part of a concatenation gets only the limit that the visible characters
/// before it leave, and never more than `L` visible characters are shown.
pub proof fn lemma_shows_visible_prefix(c: Content, e: Content, limit: nat)
    requires
        markup_erased(e, c),
    ensures
        rendered(e, limit) == visible(c).take(min_nat(limit, visible(c).len()) as int),
        text_len(e) == text_len(c),
    decreases c,
{
    lemma_text_len_is_visible_len(c);
    lemma_text_len_is_visible_len(e);
    match c {
        Content::Raw(s) => {
            if limit == 0 {
                assert(visible(c).take(0) =~= Seq::<char>::empty());
            }
        },
        Content::Tag { content, .. } => {
            let ec = e->content;
            lemma_shows_visible_prefix(*content, *ec, limit);
            if limit == 0 {
                assert(visible(c).take(0) =~= Seq::<char>::empty());
            } else {
                assert(rendered(e, limit) =~= rendered(*ec, limit));
            }
        },
        Content::Concatenation(v) => {
            let ev = e->Concatenation_0;
            lemma_seq_shows_visible_prefix(v@, ev@, limit);
            if limit == 0 {
                assert(visible(c).take(0) =~= Seq::<char>::empty());
            }
        },
    }
}

/// A sequence of contents with its markup taken out shows the first
/// `min(L, length)` characters of its visible text.
pub proof fn lemma_seq_shows_visible_prefix(cs: Seq<Content>, es: Seq<Content>, limit: nat)
    requires
        seq_markup_erased(es, cs),
    ensures
        seq_rendered(es, limit) == seq_visible(cs).take(min_nat(limit, seq_visible(cs).len()) as int),
        seq_text_len(es) == seq_text_len(cs),
    decreases cs,
{
    lemma_seq_text_len_is_visible_len(cs);
    lemma_seq_text_len_is_visible_len(es);
    if cs.len() == 0 {
        assert(seq_visible(cs).take(0) =~= Seq::<char>::empty());
    } else {
        let cp = cs.drop_last();
        let ep = es.drop_last();
        lemma_seq_shows_visible_prefix(cp, ep, limit);
        let vp = seq_visible(cp);
        let x = visible(cs.last());
        let used = min_nat(limit, seq_text_len(ep));
        let r = (limit - used) as nat;
        lemma_shows_visible_prefix(cs.last(), es.last(), r);
        lemma_seq_text_len_is_visible_len(cp);
        assert(seq_visible(cs) == vp + x);
        if limit <= vp.len() {
            assert(x.take(0) =~= Seq::<char>::empty());
            assert(vp.take(limit as int) + x.take(0) =~= (vp + x).take(limit as int));
        } else {
            assert(vp.take(vp.len() as int) =~= vp);
            assert(vp + x.take(min_nat(r, x.len()) as int) =~= (vp + x).take(
                min_nat(limit, (vp + x).len()) as int,
            ));
        }
    }
}

/// Law: a tag shows its prefix, then what its content shows under the same
/// limit, then its suffix; under a limit of zero it shows nothing at all.
pub proof fn lemma_tag_wraps_content(prefix: String, suffix: String, content: Box<Content>, limit: nat)
    ensures
        rendered(Content::Tag { prefix, suffix, content }, limit) == if limit == 0 {
            Seq::<char>::empty()
        } else {
            prefix@ + rendered(*content, limit) + suffix@
        },
{
}

} // verus!
