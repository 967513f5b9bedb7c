//! A model of the page this layer writes to: each element's id and its
//! current inner HTML, ids unique. Writing markup into an element is decided
//! and checked here; handing the result to a real document is the thin shell's
//! work.

use vstd::prelude::*;

verus! {

/// Markup already made safe for insertion; carried as-is.
pub struct HtmlEncoded {
    html: String,
}

impl View for HtmlEncoded {
    type V = Seq<char>;

    closed spec fn view(&self) -> Seq<char> {
        self.html@
    }
}

impl HtmlEncoded {
    /// Wraps text that is already encoded.
    pub fn from_encoded(html: String) -> (r: HtmlEncoded)
        ensures
            r@ == html@,
    {
        HtmlEncoded { html }
    }

    /// The markup itself.
    pub fn get_html(&self) -> (r: &String)
        ensures
            r@ == self@,
    {
        &self.html
    }
}

/// The inner HTML of the first element with this id, if there is one.
pub open spec fn lookup(s: Seq<(String, String)>, id: Seq<char>) -> Option<Seq<char>>
    decreases s.len(),
{
    if s.len() == 0 {
        None
    } else if s[0].0@ == id {
        Some(s[0].1@)
    } else {
        lookup(s.drop_first(), id)
    }
}

/// The elements this layer may address, each with its current inner HTML.
pub struct PageModel {
    elements: Vec<(String, String)>,
}

impl PageModel {
    /// What the page holds: id/content pairs in document order.
    pub closed spec fn view(&self) -> Seq<(String, String)> {
        self.elements@
    }

    /// Ids are unique, so an element id addresses one element.
    pub open spec fn wf(&self) -> bool {
        forall|i: int, j: int| 0 <= i < j < self@.len() ==> self@[i].0@ != self@[j].0@
    }

    /// An empty page.
    pub fn new() -> (r: PageModel)
        ensures
            r.wf(),
            r@.len() == 0,
    {
        PageModel { elements: Vec::new() }
    }

    /// Adds an element, unless its id is already taken; says which happened.
    #[verifier::loop_isolation(false)]
    pub fn add_element(&mut self, id: String, html: String) -> (added: bool)
        requires
            old(self).wf(),
        ensures
            final(self).wf(),
            added <==> lookup(old(self)@, id@) is None,
            if added {
                final(self)@ == old(self)@.push((id, html))
            } else {
                final(self)@ == old(self)@
            },
            added ==> lookup(final(self)@, id@) == Some(html@),
    {
        let mut k: usize = 0;
        while k < self.elements.len()
            invariant
                0 <= k <= self@.len(),
                forall|t: int| 0 <= t < k ==> self@[t].0@ != id@,
            decreases self@.len() - k,
        {
            if self.elements[k].0 == id {
                proof {
                    lemma_lookup_found(self@, id@, k as int);
                }
                return false;
            }
            k = k + 1;
        }
        proof {
            lemma_lookup_not_found(self@, id@);
        }
        let ghost prev = self@;
        self.elements.push((id, html));
        proof {
            assert forall|i: int, j: int| 0 <= i < j < self@.len() implies self@[i].0@
                != self@[j].0@ by {
                if j < prev.len() {
                } else {
                    assert(self@[j] == (id, html));
                    assert(prev[i].0@ != id@);
                }
            }
            lemma_lookup_found(self@, id@, self@.len() - 1);
        }
        true
    }

    /// The current inner HTML of the element with this id.
    #[verifier::loop_isolation(false)]
    pub fn inner_html_of(&self, element_id: &str) -> (r: Option<&String>)
        requires
            self.wf(),
        ensures
            match r {
                Some(h) => lookup(self@, element_id@) == Some(h@),
                None => lookup(self@, element_id@) is None,
            },
    {
        let key: String = element_id.to_owned();
        let mut k: usize = 0;
        while k < self.elements.len()
            invariant
                0 <= k <= self@.len(),
                key@ == element_id@,
                forall|t: int| 0 <= t < k ==> self@[t].0@ != element_id@,
            decreases self@.len() - k,
        {
            if self.elements[k].0 == key {
                proof {
                    lemma_lookup_found(self@, element_id@, k as int);
                }
                return Some(&self.elements[k].1);
            }
            k = k + 1;
        }
        proof {
            lemma_lookup_not_found(self@, element_id@);
        }
        None
    }
}

/// Replaces the inner HTML of the element with this id and touches nothing
/// else on the page. The caller must name an element the page has — asking
/// for a missing one is the one misuse this layer rules out.
#[verifier::loop_isolation(false)]
pub fn set_element_inner_html_by_id(page: &mut PageModel, element_id: &str, html: &HtmlEncoded)
    requires
        old(page).wf(),
        lookup(old(page)@, element_id@) is Some,
    ensures
        final(page).wf(),
        final(page)@.len() == old(page)@.len(),
        lookup(final(page)@, element_id@) == Some(html@),
        forall|other: Seq<char>|
            other != element_id@ ==> lookup(final(page)@, other) == lookup(old(page)@, other),
{
    let key: String = element_id.to_owned();
    let ghost prev = page@;
    let mut k: usize = 0;
    while k < page.elements.len()
        invariant
            0 <= k <= page@.len(),
            page@ == prev,
            page.wf(),
            key@ == element_id@,
            lookup(page@, element_id@) is Some,
            forall|t: int| 0 <= t < k ==> page@[t].0@ != element_id@,
        decreases page@.len() - k,
    {
        if page.elements[k].0 == key {
            let entry = page.elements.remove(k);
            let fresh = (entry.0, html.get_html().clone());
            page.elements.insert(k, fresh);
            proof {
                assert(page@ =~= prev.update(k as int, fresh));
                assert(fresh.0@ == element_id@);
                assert forall|i: int, j: int| 0 <= i < j < page@.len() implies page@[i].0@
                    != page@[j].0@ by {
                    assert(prev[i].0@ != prev[j].0@);
                }
                lemma_lookup_found(page@, element_id@, k as int);
                assert forall|other: Seq<char>| other != element_id@ implies lookup(page@, other)
                    == lookup(prev, other) by {
                    lemma_lookup_update_other(prev, k as int, fresh, other);
                }
            }
            return ;
        }
        k = k + 1;
    }
    proof {
        lemma_lookup_not_found(page@, element_id@);
        assert(false);
    }
}

/// If the id sits at position `k` of a page with unique ids, the lookup finds
/// exactly that entry.
proof fn lemma_lookup_found(s: Seq<(String, String)>, id: Seq<char>, k: int)
    requires
        0 <= k < s.len(),
        s[k].0@ == id,
        forall|i: int, j: int| 0 <= i < j < s.len() ==> s[i].0@ != s[j].0@,
    ensures
        lookup(s, id) == Some(s[k].1@),
    decreases s.len(),
{
    if k == 0 {
    } else {
        assert(s[0].0@ != id);
        assert forall|i: int, j: int|
            0 <= i < j < s.drop_first().len() implies s.drop_first()[i].0@
            != s.drop_first()[j].0@ by {
            assert(s[i + 1].0@ != s[j + 1].0@);
        }
        lemma_lookup_found(s.drop_first(), id, k - 1);
    }
}

/// If no position carries the id, the lookup comes back empty.
proof fn lemma_lookup_not_found(s: Seq<(String, String)>, id: Seq<char>)
    requires
        forall|t: int| 0 <= t < s.len() ==> s[t].0@ != id,
    ensures
        lookup(s, id) is None,
    decreases s.len(),
{
    if s.len() > 0 {
        assert forall|t: int| 0 <= t < s.drop_first().len() implies s.drop_first()[t].0@ != id by {
            assert(s[t + 1].0@ != id);
        }
        lemma_lookup_not_found(s.drop_first(), id);
    }
}

/// Overwriting one entry's content leaves every other id's lookup unchanged.
proof fn lemma_lookup_update_other(
    s: Seq<(String, String)>,
    k: int,
    x: (String, String),
    other: Seq<char>,
)
    requires
        0 <= k < s.len(),
        x.0@ == s[k].0@,
        other != x.0@,
    ensures
        lookup(s.update(k, x), other) == lookup(s, other),
    decreases s.len(),
{
    let s2 = s.update(k, x);
    if k == 0 {
        assert(s2.drop_first() =~= s.drop_first());
    } else {
        assert(s2[0] == s[0]);
        if s[0].0@ == other {
        } else {
            assert(s2.drop_first() =~= s.drop_first().update(k - 1, x));
            lemma_lookup_update_other(s.drop_first(), k - 1, x, other);
        }
    }
}

} // verus!
