//! The text of pages, kept so that a second search costs little, and the places
//! of what was found in it.

use crate::bytes::utf8;
use crate::pdfwrite::object::utf16;
use crate::sharing::share;
use crate::text::chars_of;
use std::sync::Arc;
use vstd::prelude::*;

verus! {

/// How many UTF-16 code units a character takes.
pub open spec fn units_of(c: char) -> int {
    if c as int >= 0x1_0000 {
        2
    } else {
        1
    }
}

/// How many UTF-16 code units the first `n` characters take.
pub open spec fn units_before(text: Seq<char>, n: int) -> int
    decreases n,
{
    if n <= 0 {
        0
    } else {
        units_before(text, n - 1) + units_of(text[n - 1])
    }
}

/// Where something was found, in characters.
#[derive(Debug, Clone, Copy, PartialEq, Eq, Structural)]
pub struct TextMatch {
    pub offset: usize,
    pub len: usize,
}

/// The text of one page, with where each of its characters stands in UTF-16.
#[derive(Debug)]
pub struct PageText {
    text: String,
    utf16_offsets: Vec<usize>,
}

impl View for PageText {
    type V = Seq<char>;

    closed spec fn view(&self) -> Seq<char> {
        self.text@
    }
}

proof fn lemma_units(text: Seq<char>, n: int)
    requires
        0 <= n <= text.len(),
    ensures
        n <= units_before(text, n) <= 2 * n,
    decreases n,
{
    if n > 0 {
        lemma_units(text, n - 1);
    }
}

proof fn lemma_units_grow(text: Seq<char>, m: int, n: int)
    requires
        0 <= m <= n <= text.len(),
    ensures
        units_before(text, m) <= units_before(text, n),
    decreases n - m,
{
    if m < n {
        lemma_units_grow(text, m, n - 1);
    }
}

impl PageText {
    #[verifier::type_invariant]
    spec fn offsets_match(self) -> bool {
        &&& self.utf16_offsets@.len() == self.text@.len() + 1
        &&& forall|i: int|
            0 <= i < self.utf16_offsets@.len() ==> #[trigger] self.utf16_offsets@[i]
                == units_before(self.text@, i)
    }

    /// The text of a page.
    pub fn from_text(text: String) -> (page: PageText)
        requires
            text@.len() * 2 <= usize::MAX,
        ensures
            page@ == text@,
    {
        let chars = chars_of(text.as_str());
        let mut utf16_offsets: Vec<usize> = Vec::new();
        utf16_offsets.push(0);
        let mut offset: usize = 0;
        let mut i: usize = 0;
        while i < chars.len()
            invariant
                i <= chars@.len(),
                chars@ == text@,
                text@.len() * 2 <= usize::MAX,
                offset == units_before(text@, i as int),
                utf16_offsets@.len() == i + 1,
                forall|j: int|
                    0 <= j <= i ==> #[trigger] utf16_offsets@[j] == units_before(text@, j),
            decreases chars@.len() - i,
        {
            proof {
                lemma_units(text@, i + 1);
                crate::text::lemma_char_code(chars@[i as int]);
            }
            let units: usize = if chars[i] as u32 >= 0x1_0000 {
                2
            } else {
                1
            };
            offset = offset + units;
            utf16_offsets.push(offset);
            i += 1;
        }
        PageText { text, utf16_offsets }
    }

    /// The offsets of the characters in UTF-16, with the whole length behind
    /// them.
    pub fn offsets(&self) -> (offsets: &[usize])
        ensures
            offsets@.len() == self@.len() + 1,
            forall|i: int| 0 <= i < offsets@.len() ==> #[trigger] offsets@[i] == units_before(
                self@,
                i,
            ),
    {
        proof {
            use_type_invariant(self);
        }
        self.utf16_offsets.as_slice()
    }

    /// Where a match stands in UTF-16, and how long it is there.
    pub fn utf16_range(&self, found: TextMatch) -> (range: Option<(i32, i32)>)
        requires
            found.offset + found.len <= usize::MAX,
        ensures
            match range {
                Some((start, length)) => {
                    &&& found.offset + found.len <= self@.len()
                    &&& start == units_before(self@, found.offset as int) as i32
                    &&& length == (units_before(self@, found.offset + found.len) - units_before(
                        self@,
                        found.offset as int,
                    )) as i32
                },
                None => found.offset + found.len > self@.len(),
            },
    {
        proof {
            use_type_invariant(self);
        }
        let end: usize = found.offset + found.len;
        if end >= self.utf16_offsets.len() {
            return None;
        }
        proof {
            lemma_units_grow(self@, found.offset as int, end as int);
        }
        let first: usize = self.utf16_offsets[found.offset];
        let last: usize = self.utf16_offsets[end];
        assert(last - first == units_before(self@, end as int) - units_before(
            self@,
            found.offset as int,
        ));
        Some((#[verifier::truncate] (first as i32), #[verifier::truncate] ((last - first) as i32)))
    }

    /// How much memory the page takes.
    pub fn weight(&self) -> (weight: usize)
        ensures
            weight == weight_of(self@),
    {
        proof {
            use_type_invariant(self);
        }
        let bytes: usize = self.text.as_str().as_bytes().len();
        let sum: u128 = bytes as u128 + self.utf16_offsets.len() as u128 * 8;
        if sum > usize::MAX as u128 {
            usize::MAX
        } else {
            sum as usize
        }
    }
}

/// How much memory a page of this text takes: its bytes, and eight for each
/// offset.
pub open spec fn weight_of(text: Seq<char>) -> int {
    let sum = utf8(text).len() + (text.len() + 1) * 8;
    if sum > usize::MAX {
        usize::MAX as int
    } else {
        sum as int
    }
}

/// Which page of which document.
#[derive(Debug, Clone, Copy, PartialEq, Eq, Structural)]
pub struct PageKey {
    pub document: u64,
    pub page: usize,
}

/// The texts of pages, within a budget. When it is full, everything goes: a
/// document either fits or is one that nothing would have helped twice.
#[derive(Debug)]
pub struct PageTextCache {
    pages: Vec<(PageKey, Arc<PageText>)>,
    weight: usize,
    budget: usize,
}

/// The texts that are kept, as a value.
#[verifier::ext_equal]
pub struct KeptTexts {
    pub pages: Seq<(PageKey, Seq<char>)>,
    pub weight: usize,
    pub budget: usize,
}

spec fn text_list(pages: Seq<(PageKey, Arc<PageText>)>) -> Seq<(PageKey, Seq<char>)> {
    pages.map_values(|entry: (PageKey, Arc<PageText>)| (entry.0, (*entry.1)@))
}

impl View for PageTextCache {
    type V = KeptTexts;

    closed spec fn view(&self) -> KeptTexts {
        KeptTexts { pages: text_list(self.pages@), weight: self.weight, budget: self.budget }
    }
}

/// Where a page stands from `from` on, or the end.
pub open spec fn page_index(pages: Seq<(PageKey, Seq<char>)>, key: PageKey, from: int) -> int
    decreases pages.len() - from,
{
    if from >= pages.len() || pages[from].0 == key {
        from
    } else {
        page_index(pages, key, from + 1)
    }
}

/// Two sizes together, as far as they can be counted.
pub open spec fn saturated(a: int, b: int) -> usize {
    if a + b > usize::MAX {
        usize::MAX
    } else {
        (a + b) as usize
    }
}

/// What is kept once one page more is: everything else goes first where it would
/// not fit, and a page that was there already is replaced.
pub open spec fn with_text(kept: KeptTexts, key: PageKey, text: Seq<char>) -> KeptTexts {
    let room = if saturated(kept.weight as int, weight_of(text)) > kept.budget {
        KeptTexts { pages: Seq::empty(), weight: 0, ..kept }
    } else {
        kept
    };
    let at = page_index(room.pages, key, 0);
    if at < room.pages.len() {
        KeptTexts { pages: room.pages.update(at, (key, text)), ..room }
    } else {
        KeptTexts {
            pages: room.pages.push((key, text)),
            weight: saturated(room.weight as int, weight_of(text)),
            ..room
        }
    }
}

/// The first `n` pages without those of one document, and what is then left of
/// the weight.
pub open spec fn without_document(
    pages: Seq<(PageKey, Seq<char>)>,
    weight: usize,
    document: u64,
    n: int,
) -> (Seq<(PageKey, Seq<char>)>, usize)
    decreases n,
{
    if n <= 0 {
        (Seq::empty(), weight)
    } else {
        let (kept, left) = without_document(pages, weight, document, n - 1);
        if pages[n - 1].0.document == document {
            (
                kept,
                if left < weight_of(pages[n - 1].1) {
                    0
                } else {
                    (left - weight_of(pages[n - 1].1)) as usize
                },
            )
        } else {
            (kept.push(pages[n - 1]), left)
        }
    }
}

/// The ordinary budget.
pub const TEXT_BUDGET: usize = 33_554_432;

impl Default for PageTextCache {
    fn default() -> (cache: PageTextCache)
        ensures
            cache@ == (KeptTexts { pages: Seq::empty(), weight: 0, budget: TEXT_BUDGET }),
    {
        PageTextCache::with_budget(TEXT_BUDGET)
    }
}

impl PageTextCache {
    /// An empty cache with this budget.
    pub fn with_budget(budget: usize) -> (cache: PageTextCache)
        ensures
            cache@ == (KeptTexts { pages: Seq::empty(), weight: 0, budget }),
    {
        let pages: Vec<(PageKey, Arc<PageText>)> = Vec::new();
        assert(text_list(pages@) =~= Seq::empty());
        PageTextCache { pages, weight: 0, budget }
    }

    fn find(&self, key: PageKey) -> (at: usize)
        ensures
            at == page_index(self@.pages, key, 0),
            at <= self.pages@.len(),
    {
        let mut at: usize = 0;
        while at < self.pages.len() && self.pages[at].0 != key
            invariant
                at <= self.pages@.len(),
                page_index(self@.pages, key, at as int) == page_index(self@.pages, key, 0),
            decreases self.pages@.len() - at,
        {
            assert(self@.pages[at as int].0 == self.pages@[at as int].0);
            at += 1;
        }
        proof {
            if at < self.pages@.len() {
                assert(self@.pages[at as int].0 == self.pages@[at as int].0);
            }
        }
        at
    }

    /// The text of a page, where it is kept.
    pub fn get(&self, key: PageKey) -> (text: Option<Arc<PageText>>)
        ensures
            match text {
                Some(found) => page_index(self@.pages, key, 0) < self@.pages.len() && (*found)@
                    == self@.pages[page_index(self@.pages, key, 0)].1,
                None => page_index(self@.pages, key, 0) >= self@.pages.len(),
            },
    {
        let at: usize = self.find(key);
        if at < self.pages.len() {
            assert(self@.pages[at as int].1 == (*self.pages@[at as int].1)@);
            Some(share(&self.pages[at].1))
        } else {
            None
        }
    }

    /// Keeps the text of a page.
    pub fn insert(&mut self, key: PageKey, text: PageText) -> (shared: Arc<PageText>)
        ensures
            (*shared)@ == text@,
            final(self)@ == with_text(old(self)@, key, text@),
    {
        let ghost value = text@;
        let weight: usize = text.weight();
        let sum: usize = if usize::MAX - self.weight < weight {
            usize::MAX
        } else {
            self.weight + weight
        };
        if sum > self.budget {
            self.clear();
        }
        let shared = Arc::new(text);
        let at: usize = self.find(key);
        let ghost before = self@.pages;
        if at < self.pages.len() {
            self.pages.set(at, (key, share(&shared)));
            assert(self@.pages =~= before.update(at as int, (key, value)));
        } else {
            self.pages.push((key, share(&shared)));
            assert(self@.pages =~= before.push((key, value)));
            self.weight = if usize::MAX - self.weight < weight {
                usize::MAX
            } else {
                self.weight + weight
            };
        }
        shared
    }

    /// Lets everything go.
    pub fn clear(&mut self)
        ensures
            final(self)@ == (KeptTexts { pages: Seq::empty(), weight: 0, ..old(self)@ }),
    {
        self.pages = Vec::new();
        self.weight = 0;
        assert(self@.pages =~= Seq::empty());
    }

    /// Lets the pages of one document go.
    pub fn forget_document(&mut self, document: u64)
        ensures
            final(self)@.budget == old(self)@.budget,
            (final(self)@.pages, final(self)@.weight) == without_document(
                old(self)@.pages,
                old(self)@.weight,
                document,
                old(self)@.pages.len() as int,
            ),
    {
        let ghost before = self@.pages;
        let ghost heavy = self.weight;
        let mut kept: Vec<(PageKey, Arc<PageText>)> = Vec::new();
        let mut i: usize = 0;
        assert(text_list(kept@) =~= Seq::empty());
        while i < self.pages.len()
            invariant
                i <= self.pages@.len(),
                self@.budget == old(self)@.budget,
                before == self@.pages,
                (text_list(kept@), self.weight) == without_document(
                    before,
                    heavy,
                    document,
                    i as int,
                ),
            decreases self.pages@.len() - i,
        {
            let key = self.pages[i].0;
            let ghost shorter = text_list(kept@);
            assert(before[i as int] == (key, (*self.pages@[i as int].1)@));
            if key.document == document {
                let weight: usize = self.pages[i].1.weight();
                self.weight = if self.weight < weight {
                    0
                } else {
                    self.weight - weight
                };
            } else {
                kept.push((key, share(&self.pages[i].1)));
                assert(text_list(kept@) =~= shorter.push(before[i as int]));
            }
            i += 1;
        }
        self.pages = kept;
    }
}

/// The place of a match is within the text, and matches that follow each other
/// in characters do so in UTF-16.
pub proof fn law_offsets_follow_the_text(text: Seq<char>, m: int, n: int)
    requires
        0 <= m <= n <= text.len(),
    ensures
        units_before(text, m) <= units_before(text, n) <= units_before(text, text.len() as int),
        n - m <= units_before(text, n) - units_before(text, m) <= 2 * (n - m),
    decreases n - m,
{
    lemma_units_grow(text, m, n);
    lemma_units_grow(text, n, text.len() as int);
    if m < n {
        law_offsets_follow_the_text(text, m, n - 1);
    }
}

/// The characters of a text that lie beyond the first plane of Unicode.
pub open spec fn beyond_first_plane(text: Seq<char>) -> Seq<char> {
    text.filter(|c: char| c as int > 0xFFFF)
}

/// The offset of a character in UTF-16 is how many code units the text before it
/// is encoded in. Each character takes one, and each beyond U+FFFF one more.
pub proof fn law_offsets_are_those_of_utf16(text: Seq<char>, n: int)
    requires
        0 <= n <= text.len(),
    ensures
        units_before(text, n) == utf16(text.take(n)).len(),
        units_before(text, n) == n + beyond_first_plane(text.take(n)).len(),
        (forall|i: int| 0 <= i < n ==> (#[trigger] text[i]) as int <= 0xFFFF) ==> units_before(
            text,
            n,
        ) == n,
    decreases n,
{
    let before = text.take(n);
    reveal(Seq::filter);
    if n > 0 {
        law_offsets_are_those_of_utf16(text, n - 1);
        assert(before.drop_last() =~= text.take(n - 1));
        assert(before.last() == text[n - 1]);
    } else {
        assert(before =~= Seq::empty());
    }
}

/// The text that is kept for a page, if one is.
pub open spec fn kept_text(kept: KeptTexts, key: PageKey) -> Option<Seq<char>> {
    let at = page_index(kept.pages, key, 0);
    if at < kept.pages.len() {
        Some(kept.pages[at].1)
    } else {
        None
    }
}

proof fn lemma_page_index(pages: Seq<(PageKey, Seq<char>)>, key: PageKey, from: int)
    requires
        0 <= from <= pages.len(),
    ensures
        from <= page_index(pages, key, from) <= pages.len(),
        page_index(pages, key, from) < pages.len() ==> pages[page_index(pages, key, from)].0 == key,
        forall|i: int|
            from <= i < page_index(pages, key, from) ==> (#[trigger] pages[i]).0 != key,
    decreases pages.len() - from,
{
    if from < pages.len() && pages[from].0 != key {
        lemma_page_index(pages, key, from + 1);
    }
}

proof fn lemma_index_is(pages: Seq<(PageKey, Seq<char>)>, key: PageKey, at: int)
    requires
        0 <= at <= pages.len(),
        at < pages.len() ==> pages[at].0 == key,
        forall|i: int| 0 <= i < at ==> (#[trigger] pages[i]).0 != key,
    ensures
        page_index(pages, key, 0) == at,
{
    lemma_page_index(pages, key, 0);
    let found = page_index(pages, key, 0);
    if found < at {
        assert(pages[found].0 != key);
    }
}

/// A text that was just kept is found. What is kept for the other pages stays, or
/// goes altogether where the budget would not hold it all.
pub proof fn law_a_text_that_is_kept_is_found(
    kept: KeptTexts,
    key: PageKey,
    text: Seq<char>,
    other: PageKey,
)
    requires
        other != key,
    ensures
        kept_text(with_text(kept, key, text), key) == Some(text),
        kept_text(with_text(kept, key, text), other) == (if kept.weight + weight_of(text)
            > kept.budget {
            None
        } else {
            kept_text(kept, other)
        }) || kept.budget == usize::MAX,
{
    let full = saturated(kept.weight as int, weight_of(text)) > kept.budget;
    let room = if full {
        Seq::empty()
    } else {
        kept.pages
    };
    let after = with_text(kept, key, text).pages;
    let at = page_index(room, key, 0);
    let away = page_index(room, other, 0);
    lemma_page_index(room, key, 0);
    lemma_page_index(room, other, 0);
    assert forall|i: int| 0 <= i < at implies (#[trigger] after[i]).0 != key by {
        assert(after[i] == room[i]);
    }
    lemma_index_is(after, key, at);
    if away < room.len() {
        assert(after[away] == room[away]);
        assert forall|i: int| 0 <= i < away implies (#[trigger] after[i]).0 != other by {
            if i != at {
                assert(after[i] == room[i]);
            }
        }
        lemma_index_is(after, other, away);
    } else {
        assert forall|i: int| 0 <= i < after.len() implies (#[trigger] after[i]).0 != other by {
            if i != at {
                assert(after[i] == room[i]);
            }
        }
        lemma_index_is(after, other, after.len() as int);
    }
}

proof fn lemma_without_document(
    pages: Seq<(PageKey, Seq<char>)>,
    weight: usize,
    document: u64,
    n: int,
    key: PageKey,
)
    requires
        0 <= n <= pages.len(),
    ensures
        ({
            let left = without_document(pages, weight, document, n).0;
            let at = page_index(pages, key, 0);
            &&& key.document == document || at >= n ==> page_index(left, key, 0) >= left.len()
            &&& key.document != document && at < n ==> {
                let found = page_index(left, key, 0);
                found < left.len() && left[found] == pages[at]
            }
        }),
    decreases n,
{
    lemma_page_index(pages, key, 0);
    if n > 0 {
        lemma_without_document(pages, weight, document, n - 1, key);
        let before = without_document(pages, weight, document, n - 1).0;
        let left = without_document(pages, weight, document, n).0;
        let at = page_index(pages, key, 0);
        lemma_page_index(before, key, 0);
        if pages[n - 1].0.document != document {
            let found = page_index(before, key, 0);
            if found < before.len() {
                assert forall|i: int| 0 <= i < found implies (#[trigger] left[i]).0 != key by {
                    assert(left[i] == before[i]);
                }
                assert(left[found] == before[found]);
                lemma_index_is(left, key, found);
            } else {
                assert forall|i: int| 0 <= i < before.len() implies (#[trigger] left[i]).0
                    != key by {
                    assert(left[i] == before[i]);
                }
                if pages[n - 1].0 == key {
                    lemma_index_is(left, key, before.len() as int);
                } else {
                    lemma_index_is(left, key, left.len() as int);
                }
            }
        }
    }
}

/// Of a document that is let go no text is kept, and of the others every one stays.
pub proof fn law_a_document_is_let_go(kept: KeptTexts, document: u64, key: PageKey)
    ensures
        ({
            let (pages, weight) = without_document(
                kept.pages,
                kept.weight,
                document,
                kept.pages.len() as int,
            );
            kept_text(KeptTexts { pages, weight, ..kept }, key) == (if key.document == document {
                None
            } else {
                kept_text(kept, key)
            })
        }),
{
    lemma_page_index(kept.pages, key, 0);
    lemma_without_document(kept.pages, kept.weight, document, kept.pages.len() as int, key);
}

} // verus!
