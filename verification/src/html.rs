//! What is read out of HTML: text and link targets, in document order.

use scraper::{ElementRef, Html, Selector};
use vstd::prelude::*;

use crate::models::optional;
use crate::text::strings;

verus! {

/// Pages of more characters than this are not read: the HTML parser counts bytes in 32 bits.
pub const PAGE_LIMIT: usize = 0x1fff_ffff;

/// Selectors and attribute names of more characters than this are not used: the CSS parser counts
/// lines in 32 bits and follows nested selectors by recursion.
pub const SELECTOR_LIMIT: usize = 64;

/// One element of a page, as far as it matters for a release.
pub struct Record {
    /// The text nodes of each title inside the element.
    pub titles: Vec<Vec<String>>,
    /// The target of each link inside the element, where it has one.
    pub links: Vec<Option<String>>,
    /// The text nodes of the element.
    pub texts: Vec<String>,
}

/// What a [`Record`] says.
#[verifier::ext_equal]
pub struct RecordView {
    pub titles: Seq<Seq<Seq<char>>>,
    pub links: Seq<Option<Seq<char>>>,
    pub texts: Seq<Seq<char>>,
}

/// Several lists of text nodes at once.
pub open spec fn string_lists(list: Seq<Vec<String>>) -> Seq<Seq<Seq<char>>> {
    Seq::new(list.len(), |i: int| strings(list[i]@))
}

/// Several optional strings at once.
pub open spec fn optionals(list: Seq<Option<String>>) -> Seq<Option<Seq<char>>> {
    Seq::new(list.len(), |i: int| optional(list[i]))
}

impl View for Record {
    type V = RecordView;

    open spec fn view(&self) -> RecordView {
        RecordView {
            titles: string_lists(self.titles@),
            links: optionals(self.links@),
            texts: strings(self.texts@),
        }
    }
}

/// Several records at once.
pub open spec fn records(list: Seq<Record>) -> Seq<RecordView> {
    Seq::new(list.len(), |i: int| list[i]@)
}

impl RecordView {
    /// No link target holds more characters than `limit`.
    pub open spec fn links_within(self, limit: nat) -> bool {
        forall|i: int|
            0 <= i < self.links.len() && #[trigger] self.links[i] is Some ==> self.links[i]->0.len()
                <= limit
    }
}

/// The elements of the document `page` that the CSS selector `record` selects; inside each,
/// what `title` and `link` select, and the link's `attribute`. Nothing when one of the
/// selectors is no CSS selector.
pub uninterp spec fn selected_records(
    page: Seq<char>,
    record: Seq<char>,
    title: Seq<char>,
    link: Seq<char>,
    attribute: Seq<char>,
) -> Option<Seq<RecordView>>;

/// What `link` selects in the fragment `block`, read as one record: the text nodes of each of
/// those elements as its titles, their `attribute` as its links, and the text nodes of the whole
/// fragment. Nothing when `link` is no CSS selector.
pub uninterp spec fn selected_links(
    block: Seq<char>,
    link: Seq<char>,
    attribute: Seq<char>,
) -> Option<RecordView>;

/// `scraper`: `Html::parse_document`, then `select` with the selectors that `Selector::parse`
/// makes, `ElementRef::text` and `ElementRef::attr` on what was selected. Claimed: what comes
/// out depends on the given texts alone, and no attribute holds more characters than the page,
/// since a character reference stands for no more characters than it is written with. The HTML
/// and CSS rules are not written out.
#[verifier::external_body]
pub(crate) fn select_records(
    page: &str,
    record: &str,
    title: &str,
    link: &str,
    attribute: &str,
) -> (found: Option<Vec<Record>>)
    requires
        page@.len() <= PAGE_LIMIT,
        record@.len() <= SELECTOR_LIMIT,
        title@.len() <= SELECTOR_LIMIT,
        link@.len() <= SELECTOR_LIMIT,
        attribute@.len() <= SELECTOR_LIMIT,
    ensures
        match found {
            Some(list) => selected_records(page@, record@, title@, link@, attribute@) == Some(
                records(list@),
            ) && forall|i: int|
                0 <= i < list@.len() ==> (#[trigger] list@[i])@.links_within(page@.len()),
            None => selected_records(page@, record@, title@, link@, attribute@) is None,
        },
{
    let record = Selector::parse(record).ok()?;
    let title = Selector::parse(title).ok()?;
    let link = Selector::parse(link).ok()?;
    let text = |element: ElementRef<'_>| element.text().map(str::to_owned).collect::<Vec<_>>();
    let document = Html::parse_document(page);
    let list = document.select(&record).map(|element| Record {
        titles: element.select(&title).map(text).collect(),
        links: element.select(&link).map(|found| found.attr(attribute).map(str::to_owned)).collect(),
        texts: text(element),
    });
    Some(list.collect())
}

/// `scraper`: `Html::parse_fragment`, then `select` with the selector that `Selector::parse`
/// makes, `ElementRef::text` and `ElementRef::attr` on what was selected, and the text of
/// `Html::root_element`. Claimed: what comes out depends on the given texts alone, and no
/// attribute holds more characters than the block.
#[verifier::external_body]
pub(crate) fn select_links(block: &str, link: &str, attribute: &str) -> (found: Option<Record>)
    requires
        block@.len() <= PAGE_LIMIT,
        link@.len() <= SELECTOR_LIMIT,
        attribute@.len() <= SELECTOR_LIMIT,
    ensures
        match found {
            Some(record) => selected_links(block@, link@, attribute@) == Some(record@)
                && record@.links_within(block@.len()),
            None => selected_links(block@, link@, attribute@) is None,
        },
{
    let link = Selector::parse(link).ok()?;
    let text = |element: ElementRef<'_>| element.text().map(str::to_owned).collect::<Vec<_>>();
    let fragment = Html::parse_fragment(block);
    Some(Record {
        titles: fragment.select(&link).map(text).collect(),
        links: fragment.select(&link).map(|found| found.attr(attribute).map(str::to_owned)).collect(),
        texts: text(fragment.root_element()),
    })
}

/// Records are seen whole: every title, every link and every text node of each.
pub proof fn records_are_seen_whole(list: Seq<Record>, i: int, j: int)
    requires
        0 <= i < list.len(),
    ensures
        records(list).len() == list.len(),
        ({
            let said = records(list)[i];
            &&& said.titles.len() == list[i].titles@.len()
            &&& said.links.len() == list[i].links@.len()
            &&& said.texts.len() == list[i].texts@.len()
            &&& 0 <= j < said.titles.len() ==> said.titles[j] == strings(list[i].titles@[j]@)
            &&& 0 <= j < said.links.len() ==> said.links[j] == optional(list[i].links@[j])
            &&& 0 <= j < said.texts.len() ==> said.texts[j] == list[i].texts@[j]@
        }),
{
}

} // verus!
