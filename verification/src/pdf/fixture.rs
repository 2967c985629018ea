//! A backend without a document behind it: pages that are drawn the same way
//! every time and that can be told apart, for tests and where no drawing
//! library is installed.

use crate::bytes::{find_from, no_occurrence, utf8};
use crate::images::table::MAX_TRACKED_PAGE_SIZES;
use crate::number::{parse_unsigned, unsigned_of};
use crate::pdf::capabilities::{
    ActionKind, AnnotationEvidence, AnnotationSubtype, DocumentEvidence, FormType, PageEvidence,
};
use crate::pdf::{
    collect_page_sizes, filled_sizes, full_region, request_fault, tracked_pages, BackendDocumentId,
    CancelSignal, DocumentMetadata, LinkTarget, MeasuresPages, PageLink, PageSize, PdfBackend, PdfError, PdfFault,
    Region, RenderRequest, RenderedPage,
};
use crate::pdfwrite::laws::law_decimal_reads_back;
use crate::pdfoutline::{Outline, OutlineEntry, OutlineTarget};
use crate::text::{
    chars_of, decimal_text, law_a_text_is_cut_at_its_separators, lemma_decimal_bytes, owned, pieces,
    push_wide_decimal, same_text, split, text_between, views,
};
use std::collections::HashMap;
use vstd::prelude::*;

verus! {

/// What a synthetic deck is made of.
#[derive(Debug)]
pub struct FixtureDocument {
    page_count: usize,
    metadata_text: String,
    /// Each page links to the next and to an address.
    links: bool,
    /// Each page declares one medium well and one badly.
    media: bool,
    /// Every second page has another shape.
    mixed: bool,
    /// There are bookmarks on two levels.
    outline: bool,
    /// There is something that will not be shown.
    features: bool,
}

/// A synthetic deck, as a value.
#[verifier::ext_equal]
pub struct Deck {
    pub page_count: nat,
    pub metadata_text: Seq<char>,
    pub links: bool,
    pub media: bool,
    pub mixed: bool,
    pub outline: bool,
    pub features: bool,
}

impl View for FixtureDocument {
    type V = Deck;

    closed spec fn view(&self) -> Deck {
        Deck {
            page_count: self.page_count as nat,
            metadata_text: self.metadata_text@,
            links: self.links,
            media: self.media,
            mixed: self.mixed,
            outline: self.outline,
            features: self.features,
        }
    }
}

/// A deck about which nothing is said.
pub open spec fn plain_deck() -> Deck {
    Deck {
        page_count: 20,
        metadata_text: Seq::empty(),
        links: false,
        media: false,
        mixed: false,
        outline: false,
        features: false,
    }
}

/// Does a text start with another?
pub open spec fn starts(text: Seq<char>, prefix: Seq<char>) -> bool {
    prefix.len() <= text.len() && text.take(prefix.len() as int) == prefix
}

/// A page count as it is written, or twenty where it is not a number.
pub open spec fn pages_value(text: Seq<char>) -> nat {
    match unsigned_of(utf8(text), usize::MAX as nat) {
        Some(count) => count,
        None => 20,
    }
}

/// A deck once one field has been said of it.
pub open spec fn with_field(deck: Deck, field: Seq<char>) -> Deck {
    if starts(field, "pages="@) {
        Deck { page_count: pages_value(field.skip("pages="@.len() as int)), ..deck }
    } else if starts(field, "mapping="@) {
        Deck { metadata_text: field.skip("mapping="@.len() as int), ..deck }
    } else if field == "links"@ {
        Deck { links: true, ..deck }
    } else if field == "media"@ {
        Deck { media: true, ..deck }
    } else if field == "mixed"@ {
        Deck { mixed: true, ..deck }
    } else if field == "outline"@ {
        Deck { outline: true, ..deck }
    } else if field == "features"@ {
        Deck { features: true, ..deck }
    } else {
        deck
    }
}

/// A deck once the first `n` fields have been said of it.
pub open spec fn with_fields(fields: Seq<Seq<char>>, n: int) -> Deck
    decreases n,
{
    if n <= 0 {
        plain_deck()
    } else {
        with_field(with_fields(fields, n - 1), fields[n - 1])
    }
}

/// The deck that a path describes, as in
/// `fixture:pages=30&mapping=pulpit:mapping=alternating`.
pub open spec fn deck_of(path: Seq<char>) -> Deck {
    if starts(path, "fixture:"@) {
        let fields = pieces(path.skip("fixture:"@.len() as int), seq!['&']);
        with_fields(fields, fields.len() as int)
    } else {
        plain_deck()
    }
}

/// What stands behind a prefix, where a text starts with it.
fn strip_prefix(text: &str, prefix: &str) -> (rest: Option<String>)
    ensures
        match rest {
            Some(found) => starts(text@, prefix@) && found@ == text@.skip(prefix@.len() as int),
            None => !starts(text@, prefix@),
        },
{
    let chars = chars_of(text);
    let start = chars_of(prefix);
    let length: usize = chars.len();
    let skip: usize = start.len();
    if length < skip {
        return None;
    }
    let mut i: usize = 0;
    while i < skip
        invariant
            i <= skip,
            skip <= length,
            chars@ == text@,
            start@ == prefix@,
            skip == prefix@.len(),
            length == text@.len(),
            forall|j: int| 0 <= j < i ==> text@[j] == prefix@[j],
        decreases skip - i,
    {
        if chars[i] != start[i] {
            assert(text@.take(skip as int)[i as int] == text@[i as int]);
            return None;
        }
        i += 1;
    }
    assert(text@.take(skip as int) =~= prefix@);
    let rest = text_between(chars.as_slice(), skip, length);
    assert(rest@ =~= text@.skip(skip as int));
    Some(rest)
}

impl FixtureDocument {
    /// A deck about which nothing is said.
    fn plain() -> (deck: FixtureDocument)
        ensures
            deck@ == plain_deck(),
    {
        let deck = FixtureDocument {
            page_count: 20,
            metadata_text: String::new(),
            links: false,
            media: false,
            mixed: false,
            outline: false,
            features: false,
        };
        assert(deck.metadata_text@ =~= Seq::empty());
        deck
    }

    /// Takes one field into account.
    fn take_field(&mut self, field: &str)
        ensures
            final(self)@ == with_field(old(self)@, field@),
    {
        if let Some(value) = strip_prefix(field, "pages=") {
            self.page_count = match parse_unsigned(value.as_str().as_bytes(), usize::MAX as u64) {
                Some(count) => count as usize,
                None => 20,
            };
        } else if let Some(value) = strip_prefix(field, "mapping=") {
            self.metadata_text = value;
        } else if same_text(field, "links") {
            self.links = true;
        } else if same_text(field, "media") {
            self.media = true;
        } else if same_text(field, "mixed") {
            self.mixed = true;
        } else if same_text(field, "outline") {
            self.outline = true;
        } else if same_text(field, "features") {
            self.features = true;
        }
    }

    /// The size of a page.
    fn size_of(&self, page: usize) -> (size: PageSize)
        ensures
            size == deck_size(self@, page as int),
    {
        if self.mixed && page % 2 == 1 {
            PageSize { width: 720_000, height: 540_000 }
        } else {
            PageSize { width: 960_000, height: 540_000 }
        }
    }
}

/// The size of a page of a deck.
pub open spec fn deck_size(deck: Deck, page: int) -> PageSize {
    if deck.mixed && page % 2 == 1 {
        PageSize { width: 720_000, height: 540_000 }
    } else {
        PageSize { width: 960_000, height: 540_000 }
    }
}

/// Reads the deck that a path describes.
pub fn parse(path: &str) -> (deck: FixtureDocument)
    ensures
        deck@ == deck_of(path@),
{
    let mut deck = FixtureDocument::plain();
    if let Some(query) = strip_prefix(path, "fixture:") {
        let fields = split(query.as_str(), &['&']);
        let ghost all = pieces(query@, seq!['&']);
        assert(['&']@ =~= seq!['&']);
        let mut i: usize = 0;
        while i < fields.len()
            invariant
                i <= fields@.len(),
                views(fields@) == all,
                deck@ == with_fields(all, i as int),
            decreases fields@.len() - i,
        {
            assert(all[i as int] == fields@[i as int]@) by {
                assert(views(fields@)[i as int] == fields@[i as int]@);
            }
            deck.take_field(fields[i].as_str());
            i += 1;
        }
    }
    deck
}

/// Makes synthetic decks.
#[derive(Debug)]
pub struct FixtureBackend {
    documents: HashMap<u64, FixtureDocument>,
    next_id: u64,
}

/// The open decks, as a value.
#[verifier::ext_equal]
pub struct OpenDecks {
    pub decks: Map<u64, Deck>,
    pub next_id: u64,
}

impl View for FixtureBackend {
    type V = OpenDecks;

    closed spec fn view(&self) -> OpenDecks {
        OpenDecks {
            decks: self.documents@.map_values(|deck: FixtureDocument| deck@),
            next_id: self.next_id,
        }
    }
}

impl FixtureBackend {
    /// A backend with nothing open.
    pub fn new() -> (backend: FixtureBackend)
        ensures
            backend@.decks == Map::<u64, Deck>::empty(),
            backend@.next_id == 0,
    {
        let backend = FixtureBackend { documents: HashMap::new(), next_id: 0 };
        assert(backend@.decks =~= Map::empty());
        backend
    }

    fn look_up(&self, document: BackendDocumentId) -> (deck: Result<&FixtureDocument, PdfError>)
        ensures
            match deck {
                Ok(found) => self@.decks.dom().contains(document.0) && found@
                    == self@.decks[document.0],
                Err(error) => !self@.decks.dom().contains(document.0) && error@
                    == PdfFault::Render("unknown document"@),
            },
    {
        broadcast use vstd::std_specs::hash::group_hash_axioms;

        match self.documents.get(&document.0) {
            Some(deck) => Ok(deck),
            None => Err(PdfError::Render(owned("unknown document"))),
        }
    }
}

/// What is wrong with asking for this page, if anything.
pub open spec fn page_fault(
    open: OpenDecks,
    document: BackendDocumentId,
    page: nat,
) -> Option<PdfFault> {
    if !open.decks.dom().contains(document.0) {
        Some(PdfFault::Render("unknown document"@))
    } else if page >= open.decks[document.0].page_count {
        Some(PdfFault::PageOutOfRange(page, open.decks[document.0].page_count))
    } else {
        None
    }
}

/// One pixel: red, green, blue and opacity.
pub struct Colour {
    pub red: u8,
    pub green: u8,
    pub blue: u8,
    pub opacity: u8,
}

/// A shade of grey.
pub open spec fn grey(shade: u8) -> Colour {
    Colour { red: shade, green: shade, blue: shade, opacity: 255 }
}

/// One channel of the background of a page, which tells neighbours apart.
pub open spec fn tint(page: nat, base: int, channel: int) -> u8 {
    (base + (page * 37 + channel * 53) % 60) as u8
}

/// The background of a page.
pub open spec fn background(page: nat) -> Colour {
    Colour {
        red: tint(page, 40, 0),
        green: tint(page, 44, 1),
        blue: tint(page, 52, 2),
        opacity: 255,
    }
}

/// The rows of a digit, one bit for each of five columns, the leftmost first.
pub open spec fn digit_rows(digit: char) -> Seq<u8> {
    if digit == '0' {
        seq![0b01110u8, 0b10001, 0b10011, 0b10101, 0b11001, 0b10001, 0b01110]
    } else if digit == '1' {
        seq![0b00100u8, 0b01100, 0b00100, 0b00100, 0b00100, 0b00100, 0b01110]
    } else if digit == '2' {
        seq![0b01110u8, 0b10001, 0b00001, 0b00010, 0b00100, 0b01000, 0b11111]
    } else if digit == '3' {
        seq![0b11111u8, 0b00010, 0b00100, 0b00010, 0b00001, 0b10001, 0b01110]
    } else if digit == '4' {
        seq![0b00010u8, 0b00110, 0b01010, 0b10010, 0b11111, 0b00010, 0b00010]
    } else if digit == '5' {
        seq![0b11111u8, 0b10000, 0b11110, 0b00001, 0b00001, 0b10001, 0b01110]
    } else if digit == '6' {
        seq![0b00110u8, 0b01000, 0b10000, 0b11110, 0b10001, 0b10001, 0b01110]
    } else if digit == '7' {
        seq![0b11111u8, 0b00001, 0b00010, 0b00100, 0b01000, 0b01000, 0b01000]
    } else if digit == '8' {
        seq![0b01110u8, 0b10001, 0b10001, 0b01110, 0b10001, 0b10001, 0b01110]
    } else if digit == '9' {
        seq![0b01110u8, 0b10001, 0b10001, 0b01111, 0b00001, 0b00010, 0b01100]
    } else {
        seq![0u8, 0, 0, 0, 0, 0, 0]
    }
}

/// Is this column of this row of a digit set?
pub open spec fn bit_set(row: u8, column: int) -> bool {
    let shift = (4 - column) as u8;
    (row >> shift) & 1 == 1
}

/// Half of a number, rounded towards zero.
pub open spec fn half(n: int) -> int {
    if n >= 0 {
        n / 2
    } else {
        -((-n) / 2)
    }
}

/// How many pixels wide and high a column and a row of a digit are.
pub open spec fn digit_scale(height: int) -> int {
    if height / 12 > 2 {
        height / 12
    } else {
        2
    }
}

/// Does a label cover a point, when its digits are centred in a frame?
pub open spec fn label_covers(label: Seq<char>, width: int, height: int, x: int, y: int) -> bool {
    let scale = digit_scale(height);
    let right = x - half(width - 6 * scale * label.len());
    let down = y - half(height - 7 * scale);
    &&& 0 <= right < 6 * scale * label.len()
    &&& 0 <= down < 7 * scale
    &&& (right % (6 * scale)) / scale < 5
    &&& bit_set(
        digit_rows(label[right / (6 * scale)])[down / scale],
        (right % (6 * scale)) / scale,
    )
}

/// Is a point within three pixels of an edge?
pub open spec fn on_border(width: int, height: int, x: int, y: int) -> bool {
    x < 3 || y < 3 || x >= width - 3 || y >= height - 3
}

/// The colour of one pixel of a page: the mark of a part of a page over the
/// number of the page, over a border, over the background.
pub open spec fn colour_at(
    page: nat,
    full: bool,
    width: int,
    height: int,
    x: int,
    y: int,
) -> Colour {
    if !full && y == height / 2 {
        Colour { red: 120, green: 180, blue: 255, opacity: 255 }
    } else if label_covers(decimal_text(page + 1), width, height, x, y) {
        grey(235)
    } else if on_border(width, height, x, y) {
        grey(200)
    } else {
        background(page)
    }
}

/// The bytes of a pixel.
pub open spec fn colour_bytes(colour: Colour) -> Seq<u8> {
    seq![colour.red, colour.green, colour.blue, colour.opacity]
}

/// The first `n` pixels of a page, row by row.
pub open spec fn page_pixels(page: nat, full: bool, width: int, height: int, n: int) -> Seq<u8>
    decreases n,
{
    if n <= 0 {
        Seq::empty()
    } else {
        page_pixels(page, full, width, height, n - 1) + colour_bytes(
            colour_at(page, full, width, height, (n - 1) % width, (n - 1) / width),
        )
    }
}

/// A pixel takes four bytes.
proof fn lemma_pixels_length(page: nat, full: bool, width: int, height: int, n: int)
    requires
        n >= 0,
    ensures
        page_pixels(page, full, width, height, n).len() == 4 * n,
    decreases n,
{
    if n > 0 {
        lemma_pixels_length(page, full, width, height, n - 1);
    }
}

/// The rows of a digit.
fn digit_bitmap(digit: char) -> (rows: [u8; 7])
    ensures
        rows@ == digit_rows(digit),
{
    let rows: [u8; 7] = match digit {
        '0' => [0b01110u8, 0b10001, 0b10011, 0b10101, 0b11001, 0b10001, 0b01110],
        '1' => [0b00100u8, 0b01100, 0b00100, 0b00100, 0b00100, 0b00100, 0b01110],
        '2' => [0b01110u8, 0b10001, 0b00001, 0b00010, 0b00100, 0b01000, 0b11111],
        '3' => [0b11111u8, 0b00010, 0b00100, 0b00010, 0b00001, 0b10001, 0b01110],
        '4' => [0b00010u8, 0b00110, 0b01010, 0b10010, 0b11111, 0b00010, 0b00010],
        '5' => [0b11111u8, 0b10000, 0b11110, 0b00001, 0b00001, 0b10001, 0b01110],
        '6' => [0b00110u8, 0b01000, 0b10000, 0b11110, 0b10001, 0b10001, 0b01110],
        '7' => [0b11111u8, 0b00001, 0b00010, 0b00100, 0b01000, 0b01000, 0b01000],
        '8' => [0b01110u8, 0b10001, 0b10001, 0b01110, 0b10001, 0b10001, 0b01110],
        '9' => [0b01110u8, 0b10001, 0b10001, 0b01111, 0b00001, 0b00010, 0b01100],
        _ => [0u8, 0, 0, 0, 0, 0, 0],
    };
    assert(rows@ =~= digit_rows(digit));
    rows
}

fn halve(n: i64) -> (out: i64)
    requires
        n > i64::MIN,
    ensures
        out == half(n as int),
{
    if n >= 0 {
        n / 2
    } else {
        -((-n) / 2)
    }
}

/// Does the label cover this point?
fn covers(label: &[char], width: u32, height: u32, x: u32, y: u32) -> (covered: bool)
    requires
        label@.len() <= 40,
    ensures
        covered == label_covers(label@, width as int, height as int, x as int, y as int),
{
    let scale: i64 = if height / 12 > 2 {
        (height / 12) as i64
    } else {
        2
    };
    let glyph: i64 = 6 * scale;
    let count: i64 = label.len() as i64;
    assert(glyph * count <= 6 * 357_913_942 * 40) by (nonlinear_arith)
        requires
            0 <= glyph <= 6 * 357_913_942,
            0 <= count <= 40,
    ;
    assert(0 <= glyph * count) by (nonlinear_arith)
        requires
            0 <= glyph,
            0 <= count,
    ;
    let total: i64 = glyph * count;
    let right: i64 = x as i64 - halve(width as i64 - total);
    let down: i64 = y as i64 - halve(height as i64 - 7 * scale);
    assert(total == 6 * scale * label@.len());
    if right < 0 || right >= total || down < 0 || down >= 7 * scale {
        return false;
    }
    let index: i64 = right / glyph;
    let column: i64 = (right % glyph) / scale;
    let row: i64 = down / scale;
    proof {
        assert(0 <= right / glyph < count) by (nonlinear_arith)
            requires
                0 <= right < glyph * count,
                glyph > 0,
        ;
        assert(0 <= down / scale < 7) by (nonlinear_arith)
            requires
                0 <= down < 7 * scale,
                scale > 0,
        ;
        assert(0 <= (right % glyph) / scale) by (nonlinear_arith)
            requires
                0 <= right,
                glyph > 0,
                scale > 0,
        ;
    }
    if column >= 5 {
        return false;
    }
    let rows = digit_bitmap(label[index as usize]);
    let bits: u8 = rows[row as usize];
    let shift: u8 = (4 - column) as u8;
    (bits >> shift) & 1 == 1
}

fn push_colour(pixels: &mut Vec<u8>, red: u8, green: u8, blue: u8)
    ensures
        final(pixels)@ == old(pixels)@ + colour_bytes(Colour { red, green, blue, opacity: 255 }),
{
    let ghost before = pixels@;
    pixels.push(red);
    pixels.push(green);
    pixels.push(blue);
    pixels.push(255);
    assert(pixels@ =~= before + colour_bytes(Colour { red, green, blue, opacity: 255 }));
}

fn channel(page: usize, base: u8, number: u8) -> (shade: u8)
    requires
        base <= 60,
        number <= 2,
    ensures
        shade == tint(page as nat, base as int, number as int),
{
    let turn: u128 = (page as u128 * 37 + number as u128 * 53) % 60;
    base + turn as u8
}

/// Draws a page that can be recognised: a background of its own, a border, and
/// its number in the middle.
pub fn draw_page(page: usize, region: Region, width: u32, height: u32) -> (drawn: RenderedPage)
    requires
        width * height * 4 <= usize::MAX,
    ensures
        drawn.width == width,
        drawn.height == height,
        drawn.pixels@ == page_pixels(
            page as nat,
            region == full_region(),
            width as int,
            height as int,
            width * height,
        ),
{
    let full = region.is_full();
    let mut label = String::new();
    push_wide_decimal(&mut label, page as u128 + 1);
    assert(label@ =~= decimal_text((page + 1) as nat));
    let chars = chars_of(label.as_str());
    proof {
        assert(vstd::arithmetic::power::pow(10, 20) == 100_000_000_000_000_000_000int) by {
            reveal_with_fuel(vstd::arithmetic::power::pow, 21);
        }
        lemma_decimal_length(page as nat + 1, 20);
    }
    let red: u8 = channel(page, 40, 0);
    let green: u8 = channel(page, 44, 1);
    let blue: u8 = channel(page, 52, 2);
    let mut pixels: Vec<u8> = Vec::new();
    let mut y: u32 = 0;
    let ghost mut n: int = 0;
    while y < height
        invariant
            y <= height,
            chars@ == decimal_text((page + 1) as nat),
            chars@.len() <= 40,
            full == (region == full_region()),
            red == tint(page as nat, 40, 0),
            green == tint(page as nat, 44, 1),
            blue == tint(page as nat, 52, 2),
            n == y * width,
            pixels@ == page_pixels(page as nat, full, width as int, height as int, n),
        decreases height - y,
    {
        let mut x: u32 = 0;
        while x < width
            invariant
                y < height,
                x <= width,
                chars@ == decimal_text((page + 1) as nat),
                chars@.len() <= 40,
                full == (region == full_region()),
                red == tint(page as nat, 40, 0),
                green == tint(page as nat, 44, 1),
                blue == tint(page as nat, 52, 2),
                n == y * width + x,
                pixels@ == page_pixels(page as nat, full, width as int, height as int, n),
            decreases width - x,
        {
            proof {
                assert(n / (width as int) == y && n % (width as int) == x) by {
                    assert(n == (width as int) * (y as int) + x) by (nonlinear_arith)
                        requires
                            n == y * width + x,
                    ;
                    vstd::arithmetic::div_mod::lemma_fundamental_div_mod_converse(
                        n,
                        width as int,
                        y as int,
                        x as int,
                    );
                }
            }
            let border = x < 3 || y < 3 || width - x <= 3 || height - y <= 3;
            if !full && y == height / 2 {
                push_colour(&mut pixels, 120, 180, 255);
            } else if covers(chars.as_slice(), width, height, x, y) {
                push_colour(&mut pixels, 235, 235, 235);
            } else if border {
                push_colour(&mut pixels, 200, 200, 200);
            } else {
                push_colour(&mut pixels, red, green, blue);
            }
            proof {
                n = n + 1;
            }
            x += 1;
        }
        proof {
            assert((y + 1) * width == y * width + width) by (nonlinear_arith);
        }
        y += 1;
    }
    proof {
        assert(height * width == width * height) by (nonlinear_arith);
    }
    RenderedPage { width, height, pixels }
}

proof fn lemma_decimal_length(n: nat, digits: nat)
    requires
        digits >= 1,
        n < vstd::arithmetic::power::pow(10, digits),
    ensures
        decimal_text(n).len() <= digits,
    decreases n,
{
    if n >= 10 {
        vstd::arithmetic::power::lemma_pow1(10);
        vstd::arithmetic::power::lemma_pow_adds(10, 1, (digits - 1) as nat);
        if digits == 1 {
            assert(false);
        }
        lemma_decimal_length(n / 10, (digits - 1) as nat);
    }
}

/// What a request gives, apart from whether it is still wanted: the page, or
/// what is wrong with asking for it.
pub open spec fn render_fault(open: OpenDecks, request: RenderRequest) -> Option<PdfFault> {
    match request_fault(request) {
        Some(fault) => Some(fault),
        None => page_fault(open, request.document, request.page as nat),
    }
}

/// Is this the page that was asked for, as it is drawn?
pub open spec fn is_drawn(page: RenderedPage, request: RenderRequest) -> bool {
    &&& page.width == request.width
    &&& page.height == request.height
    &&& page.pixels@ == page_pixels(
        request.page as nat,
        request.region == full_region(),
        request.width as int,
        request.height as int,
        request.width * request.height,
    )
}

impl FixtureBackend {
    /// What is wrong with asking for a page, if anything is.
    fn refuse(&self, request: &RenderRequest) -> (refusal: Option<PdfError>)
        ensures
            match refusal {
                Some(error) => render_fault(self@, *request) == Some(error@),
                None => render_fault(self@, *request) is None,
            },
    {
        if let Err(error) = request.validate() {
            return Some(error);
        }
        let deck = match self.look_up(request.document) {
            Ok(deck) => deck,
            Err(error) => {
                return Some(error);
            },
        };
        if request.page >= deck.page_count {
            return Some(PdfError::PageOutOfRange { page: request.page, count: deck.page_count });
        }
        None
    }

    /// Draws a page, unless the request is wrong or, by then, no longer wanted.
    pub fn draw_unless(&self, request: &RenderRequest, cancelled: bool) -> (drawn: Result<
        RenderedPage,
        PdfError,
    >)
        ensures
            match render_fault(self@, *request) {
                Some(fault) => drawn matches Err(error) && error@ == fault,
                None => if cancelled {
                    drawn matches Err(error) && error@ == PdfFault::Cancelled
                } else {
                    drawn matches Ok(page) && is_drawn(page, *request)
                },
            },
    {
        if let Some(error) = self.refuse(request) {
            return Err(error);
        }
        if cancelled {
            return Err(PdfError::Cancelled);
        }
        assert(request.width * request.height * 4 <= 16_384 * 16_384 * 4) by (nonlinear_arith)
            requires
                request.width <= 16_384,
                request.height <= 16_384,
        ;
        Ok(draw_page(request.page, request.region, request.width, request.height))
    }
}

/// Does a text hold the word that makes opening it fail?
pub open spec fn unreadable(source: Seq<char>) -> bool {
    !no_occurrence(utf8(source), utf8("unreadable"@), 0)
}

/// The links of a page.
pub open spec fn link_values(deck: Deck, page: nat) -> Seq<(Region, Option<nat>, Seq<char>)> {
    if deck.media {
        seq![
            (
                Region { x: 100_000, y: 100_000, width: 500_000, height: 400_000 },
                None,
                "pulpit://video/clip?autoplay"@,
            ),
            (
                Region { x: 100_000, y: 600_000, width: 500_000, height: 200_000 },
                None,
                "pulpit://hologram/x"@,
            ),
        ]
    } else if !deck.links {
        Seq::empty()
    } else {
        let home = (
            Region { x: 50_000, y: 850_000, width: 200_000, height: 100_000 },
            None,
            "https://example.com/pulpit"@,
        );
        if page + 1 < deck.page_count {
            seq![
                home,
                (
                    Region { x: 750_000, y: 850_000, width: 200_000, height: 100_000 },
                    Some(page + 1),
                    Seq::empty(),
                ),
            ]
        } else {
            seq![home]
        }
    }
}

/// A link, as a value: where it is, the page that it leads to where it leads to
/// one, and else the address.
pub open spec fn link_value(link: PageLink) -> (Region, Option<nat>, Seq<char>) {
    match link.target {
        LinkTarget::Page { page, zoom } => (link.rect, Some(page as nat), Seq::empty()),
        LinkTarget::Uri(uri) => (link.rect, None, uri@),
    }
}

fn uri_link(rect: Region, uri: &str) -> (link: PageLink)
    ensures
        link_value(link) == (rect, None::<nat>, uri@),
{
    PageLink { rect, target: LinkTarget::Uri(owned(uri)) }
}

fn bookmark(title: &str, page: usize, depth: usize, children: Vec<OutlineEntry>) -> (entry:
    OutlineEntry)
    ensures
        entry.title@ == title@,
        entry.target == OutlineTarget::Page(page),
        entry.depth == depth,
        entry.children == children,
{
    OutlineEntry { title: owned(title), target: OutlineTarget::Page(page), depth, children }
}

impl MeasuresPages for FixtureBackend {
    open spec fn measured(&self, document: BackendDocumentId, page: int) -> Option<PageSize> {
        if self@.decks.dom().contains(document.0) && page < self@.decks[document.0].page_count {
            Some(deck_size(self@.decks[document.0], page))
        } else {
            None
        }
    }

    fn page_size(&self, document: BackendDocumentId, page: usize) -> (size: Result<
        PageSize,
        PdfError,
    >)
        ensures
            match size {
                Ok(found) => page_fault(self@, document, page as nat) is None,
                Err(error) => page_fault(self@, document, page as nat) == Some(error@),
            },
    {
        let deck = match self.look_up(document) {
            Ok(deck) => deck,
            Err(error) => {
                return Err(error);
            },
        };
        if page >= deck.page_count {
            return Err(PdfError::PageOutOfRange { page, count: deck.page_count });
        }
        Ok(deck.size_of(page))
    }
}

impl PdfBackend for FixtureBackend {
    fn name(&self) -> (name: &'static str)
        ensures
            name@ == "fixture"@,
    {
        "fixture"
    }

    fn version(&self) -> (version: String)
        ensures
            version@ == "synthetic pages, pulpit 0.1.0"@,
    {
        owned("synthetic pages, pulpit 0.1.0")
    }

    open spec fn has_room(&self) -> bool {
        self@.next_id < u64::MAX
    }

    fn open(&mut self, source: &str) -> (opened: Result<BackendDocumentId, PdfError>)
        ensures
            match opened {
                Ok(document) => {
                    &&& !unreadable(source@)
                    &&& document.0 == old(self)@.next_id + 1
                    &&& final(self)@.next_id == document.0
                    &&& final(self)@.decks == old(self)@.decks.insert(
                        document.0,
                        deck_of(source@),
                    )
                },
                Err(error) => {
                    &&& unreadable(source@)
                    &&& final(self)@ == old(self)@
                    &&& error@ == PdfFault::Open(source@, "fixture configured to fail"@)
                },
            },
    {
        broadcast use vstd::std_specs::hash::group_hash_axioms;

        if find_from(source.as_bytes(), "unreadable".as_bytes(), 0).is_some() {
            return Err(
                PdfError::Open { path: owned(source), reason: owned("fixture configured to fail") },
            );
        }
        let ghost before = self@.decks;
        self.next_id = self.next_id + 1;
        self.documents.insert(self.next_id, parse(source));
        proof {
            assert(self@.decks =~= before.insert(self.next_id, deck_of(source@)));
        }
        Ok(BackendDocumentId(self.next_id))
    }

    fn close(&mut self, document: BackendDocumentId)
        ensures
            final(self)@.decks == old(self)@.decks.remove(document.0),
            final(self)@.next_id == old(self)@.next_id,
    {
        broadcast use vstd::std_specs::hash::group_hash_axioms;

        let ghost before = self@.decks;
        self.documents.remove(&document.0);
        proof {
            assert(self@.decks =~= before.remove(document.0));
        }
    }

    fn metadata(&self, document: BackendDocumentId) -> (metadata: Result<
        DocumentMetadata,
        PdfError,
    >)
        ensures
            match metadata {
                Ok(found) => {
                    let deck = self@.decks[document.0];
                    &&& self@.decks.dom().contains(document.0)
                    &&& found.page_count == deck.page_count
                    &&& found.first_page_size == deck_size(deck, 0)
                    &&& found.page_sizes@ == filled_sizes(
                        |page: int| self.measured(document, page),
                        Seq::empty(),
                        tracked_pages(deck.page_count),
                    )
                    &&& found.page_sizes_sampled == (deck.page_count > MAX_TRACKED_PAGE_SIZES
                        && found.page_sizes@.len() > 0)
                    &&& found.metadata_text@ == deck.metadata_text
                    &&& found.source_digest is None
                },
                Err(error) => !self@.decks.dom().contains(document.0) && error@
                    == PdfFault::Render("unknown document"@),
            },
    {
        let deck = match self.look_up(document) {
            Ok(deck) => deck,
            Err(error) => {
                return Err(error);
            },
        };
        let (page_sizes, page_sizes_sampled) = collect_page_sizes(self, document, deck.page_count);
        Ok(
            DocumentMetadata {
                page_count: deck.page_count,
                first_page_size: deck.size_of(0),
                page_sizes,
                page_sizes_sampled,
                metadata_text: owned(deck.metadata_text.as_str()),
                source_digest: None,
            },
        )
    }

    open spec fn draws(&self, request: RenderRequest, pixels: Seq<u8>) -> bool {
        &&& render_fault(self@, request) is None
        &&& pixels == page_pixels(
            request.page as nat,
            request.region == full_region(),
            request.width as int,
            request.height as int,
            request.width * request.height,
        )
    }

    open spec fn fails(&self, request: RenderRequest, fault: PdfFault) -> bool {
        match render_fault(self@, request) {
            Some(found) => fault == found,
            None => fault == PdfFault::Cancelled,
        }
    }

    fn render<C: CancelSignal>(&self, request: &RenderRequest, cancel: &C) -> (drawn: Result<
        RenderedPage,
        PdfError,
    >)
        ensures
            match drawn {
                Ok(page) => {
                    &&& render_fault(self@, *request) is None
                    &&& call_ensures(C::is_cancelled, (cancel,), false)
                    &&& is_drawn(page, *request)
                },
                Err(error) => match render_fault(self@, *request) {
                    Some(fault) => error@ == fault,
                    None => error@ == PdfFault::Cancelled && call_ensures(
                        C::is_cancelled,
                        (cancel,),
                        true,
                    ),
                },
            },
    {
        if let Some(error) = self.refuse(request) {
            return Err(error);
        }
        proof {
            assert(0 <= request.width * request.height) by (nonlinear_arith);
            lemma_pixels_length(
                request.page as nat,
                request.region == full_region(),
                request.width as int,
                request.height as int,
                request.width * request.height,
            );
        }
        self.draw_unless(request, cancel.is_cancelled())
    }

    fn links(&self, document: BackendDocumentId, page: usize) -> (links: Result<
        Vec<PageLink>,
        PdfError,
    >)
        ensures
            match links {
                Ok(found) => page_fault(self@, document, page as nat) is None
                    && found@.map_values(|link: PageLink| link_value(link)) == link_values(
                    self@.decks[document.0],
                    page as nat,
                ),
                Err(error) => page_fault(self@, document, page as nat) == Some(error@),
            },
    {
        let deck = match self.look_up(document) {
            Ok(deck) => deck,
            Err(error) => {
                return Err(error);
            },
        };
        if page >= deck.page_count {
            return Err(PdfError::PageOutOfRange { page, count: deck.page_count });
        }
        let mut links: Vec<PageLink> = Vec::new();
        if deck.media {
            links.push(
                uri_link(
                    Region::new(100_000, 100_000, 500_000, 400_000),
                    "pulpit://video/clip?autoplay",
                ),
            );
            links.push(
                uri_link(Region::new(100_000, 600_000, 500_000, 200_000), "pulpit://hologram/x"),
            );
        } else if deck.links {
            links.push(
                uri_link(
                    Region::new(50_000, 850_000, 200_000, 100_000),
                    "https://example.com/pulpit",
                ),
            );
            if page < deck.page_count - 1 {
                links.push(
                    PageLink {
                        rect: Region::new(750_000, 850_000, 200_000, 100_000),
                        target: LinkTarget::Page { page: page + 1, zoom: None },
                    },
                );
            }
        }
        assert(links@.map_values(|link: PageLink| link_value(link)) =~= link_values(
            deck@,
            page as nat,
        ));
        Ok(links)
    }

    fn outline(&self, document: BackendDocumentId) -> (outline: Result<Outline, PdfError>)
        ensures
            match outline {
                Ok(found) => {
                    let deck = self@.decks[document.0];
                    &&& self@.decks.dom().contains(document.0)
                    &&& if deck.outline && deck.page_count >= 3 {
                        &&& found.entries@.len() == 2
                        &&& found.entries@[0].title@ == "Introduction"@
                        &&& found.entries@[0].target == OutlineTarget::Page(0)
                        &&& found.entries@[0].depth == 0
                        &&& found.entries@[0].children@.len() == 0
                        &&& found.entries@[1].title@ == "Method"@
                        &&& found.entries@[1].target == OutlineTarget::Page(1)
                        &&& found.entries@[1].depth == 0
                        &&& found.entries@[1].children@.len() == 1
                        &&& found.entries@[1].children@[0].title@ == "Measurements"@
                        &&& found.entries@[1].children@[0].target == OutlineTarget::Page(2)
                        &&& found.entries@[1].children@[0].depth == 1
                        &&& found.entries@[1].children@[0].children@.len() == 0
                    } else {
                        found.entries@.len() == 0
                    }
                },
                Err(error) => !self@.decks.dom().contains(document.0) && error@
                    == PdfFault::Render("unknown document"@),
            },
    {
        let deck = match self.look_up(document) {
            Ok(deck) => deck,
            Err(error) => {
                return Err(error);
            },
        };
        let mut entries: Vec<OutlineEntry> = Vec::new();
        if deck.outline && deck.page_count >= 3 {
            entries.push(bookmark("Introduction", 0, 0, Vec::new()));
            let mut below: Vec<OutlineEntry> = Vec::new();
            below.push(bookmark("Measurements", 2, 1, Vec::new()));
            entries.push(bookmark("Method", 1, 0, below));
        }
        Ok(Outline { entries })
    }

    fn evidence(&self, document: BackendDocumentId) -> (evidence: Result<
        DocumentEvidence,
        PdfError,
    >)
        ensures
            match evidence {
                Ok(found) => {
                    &&& self@.decks.dom().contains(document.0)
                    &&& found.restriction is None
                    &&& found.transition_styles@.len() == 0
                    &&& if self@.decks[document.0].features {
                        &&& found.form_type == FormType::AcroForm
                        &&& views(found.document_javascript@) == seq!["setUp"@]
                        &&& found.pages@.len() == 1
                        &&& found.pages@[0].page == 0
                        &&& found.pages@[0].annotations@ == seq![
                            AnnotationEvidence {
                                subtype: AnnotationSubtype::Sound,
                                action: ActionKind::NoAction,
                                uri: None,
                                has_additional_actions: false,
                            },
                            AnnotationEvidence {
                                subtype: AnnotationSubtype::Link,
                                action: ActionKind::Launch,
                                uri: None,
                                has_additional_actions: false,
                            },
                        ]
                        &&& match found.pages@[0].transition {
                            Some(style) => style@ == "Dissolve"@,
                            None => false,
                        }
                    } else {
                        &&& found.form_type == FormType::NoForm
                        &&& found.document_javascript@.len() == 0
                        &&& found.pages@.len() == 0
                    }
                },
                Err(error) => !self@.decks.dom().contains(document.0) && error@
                    == PdfFault::Render("unknown document"@),
            },
    {
        let deck = match self.look_up(document) {
            Ok(deck) => deck,
            Err(error) => {
                return Err(error);
            },
        };
        if !deck.features {
            return Ok(DocumentEvidence::default());
        }
        let mut scripts: Vec<String> = Vec::new();
        scripts.push(owned("setUp"));
        let mut annotations: Vec<AnnotationEvidence> = Vec::new();
        annotations.push(
            AnnotationEvidence {
                subtype: AnnotationSubtype::Sound,
                action: ActionKind::NoAction,
                uri: None,
                has_additional_actions: false,
            },
        );
        annotations.push(
            AnnotationEvidence {
                subtype: AnnotationSubtype::Link,
                action: ActionKind::Launch,
                uri: None,
                has_additional_actions: false,
            },
        );
        let mut pages: Vec<PageEvidence> = Vec::new();
        pages.push(PageEvidence { page: 0, annotations, transition: Some(owned("Dissolve")) });
        assert(views(scripts@) =~= seq!["setUp"@]);
        Ok(
            DocumentEvidence {
                form_type: FormType::AcroForm,
                document_javascript: scripts,
                restriction: None,
                pages,
                transition_styles: Vec::new(),
            },
        )
    }
}

proof fn lemma_pixels(page: nat, full: bool, width: int, height: int, n: int, k: int, c: int)
    requires
        0 <= k < n,
        0 <= c < 4,
    ensures
        page_pixels(page, full, width, height, n).len() == 4 * n,
        page_pixels(page, full, width, height, n)[4 * k + c] == colour_bytes(
            colour_at(page, full, width, height, k % width, k / width),
        )[c],
    decreases n,
{
    lemma_pixel_count(page, full, width, height, n - 1);
    if k < n - 1 {
        lemma_pixels(page, full, width, height, n - 1, k, c);
    }
}

proof fn lemma_pixel_count(page: nat, full: bool, width: int, height: int, n: int)
    requires
        0 <= n,
    ensures
        page_pixels(page, full, width, height, n).len() == 4 * n,
    decreases n,
{
    if n > 0 {
        lemma_pixel_count(page, full, width, height, n - 1);
    }
}

/// The four bytes of a pixel stand as many rows down as the pixel does, and as
/// many pixels along its row.
pub proof fn law_pixels_stand_row_by_row(
    page: nat,
    full: bool,
    width: int,
    height: int,
    x: int,
    y: int,
)
    requires
        0 <= x < width,
        0 <= y < height,
    ensures
        ({
            let pixels = page_pixels(page, full, width, height, width * height);
            &&& pixels.len() == width * height * 4
            &&& pixels.subrange(4 * (y * width + x), 4 * (y * width + x) + 4) == colour_bytes(
                colour_at(page, full, width, height, x, y),
            )
        }),
{
    let k = y * width + x;
    let n = width * height;
    assert(0 <= k < n) by (nonlinear_arith)
        requires
            k == y * width + x,
            n == width * height,
            0 <= x < width,
            0 <= y < height,
    ;
    vstd::arithmetic::div_mod::lemma_fundamental_div_mod_converse(k, width, y, x);
    let pixels = page_pixels(page, full, width, height, n);
    let found = colour_bytes(colour_at(page, full, width, height, x, y));
    lemma_pixel_count(page, full, width, height, n);
    assert forall|c: int| 0 <= c < 4 implies #[trigger] pixels[4 * k + c] == found[c] by {
        lemma_pixels(page, full, width, height, n, k, c);
    }
    let part = pixels.subrange(4 * k, 4 * k + 4);
    assert forall|c: int| 0 <= c < 4 implies #[trigger] part[c] == found[c] by {
        assert(part[c] == pixels[4 * k + c]);
    }
    assert(part =~= found);
}

/// A page never has the background of the next, nor one that is as light as its
/// border.
pub proof fn law_neighbours_are_told_apart(page: nat)
    ensures
        background(page) != background(page + 1),
        background(page).red < 200,
        background(page).green < 200,
        background(page).blue < 200,
{
    assert(tint(page, 40, 0) != tint(page + 1, 40, 0));
}

/// The columns of a row of a digit, from left to right, are the binary digits of
/// the row.
pub proof fn law_columns_spell_a_row(row: u8)
    requires
        row < 32,
    ensures
        row == (if bit_set(row, 0) {
            16int
        } else {
            0
        }) + (if bit_set(row, 1) {
            8int
        } else {
            0
        }) + (if bit_set(row, 2) {
            4int
        } else {
            0
        }) + (if bit_set(row, 3) {
            2int
        } else {
            0
        }) + (if bit_set(row, 4) {
            1int
        } else {
            0
        }),
{
    assert((row >> 4u8) & 1 == (row / 16) % 2) by (bit_vector);
    assert((row >> 3u8) & 1 == (row / 8) % 2) by (bit_vector);
    assert((row >> 2u8) & 1 == (row / 4) % 2) by (bit_vector);
    assert((row >> 1u8) & 1 == (row / 2) % 2) by (bit_vector);
    assert((row >> 0u8) & 1 == row % 2) by (bit_vector);
}

/// The number of a page is drawn in the middle: every point of it is within half
/// of its width, and within half of its height, of where the middle is.
pub proof fn law_the_number_is_in_the_middle(
    label: Seq<char>,
    width: int,
    height: int,
    x: int,
    y: int,
)
    requires
        label_covers(label, width, height, x, y),
    ensures
        ({
            let wide = 6 * digit_scale(height) * label.len();
            let high = 7 * digit_scale(height);
            &&& width - wide - 1 <= 2 * x <= width + wide
            &&& height - high - 1 <= 2 * y <= height + high
        }),
{
}

/// A deck has what one of its fields says, and nothing that none of them says.
pub proof fn law_a_deck_has_what_is_said_of_it(fields: Seq<Seq<char>>, n: int)
    requires
        0 <= n <= fields.len(),
    ensures
        with_fields(fields, n).links == fields.take(n).contains("links"@),
        with_fields(fields, n).media == fields.take(n).contains("media"@),
        with_fields(fields, n).mixed == fields.take(n).contains("mixed"@),
        with_fields(fields, n).outline == fields.take(n).contains("outline"@),
        with_fields(fields, n).features == fields.take(n).contains("features"@),
    decreases n,
{
    if n > 0 {
        let field = fields[n - 1];
        let earlier = fields.take(n - 1);
        law_a_deck_has_what_is_said_of_it(fields, n - 1);
        lemma_flags(field);
        assert(fields.take(n) =~= earlier.push(field));
        assert forall|other: Seq<char>| #[trigger] earlier.push(field).contains(other) == (
        earlier.contains(other) || other == field) by {
            if earlier.contains(other) {
                let i = earlier.index_of(other);
                assert(earlier.push(field)[i] == other);
            }
            if other == field {
                assert(earlier.push(field)[n - 1] == other);
            }
        }
    } else {
        assert(fields.take(0).len() == 0);
    }
}

/// The fields that say what a deck has are no two the same, and none is a count
/// of pages or a mapping.
proof fn lemma_flags(field: Seq<char>)
    ensures
        ({
            let flags = seq!["links"@, "media"@, "mixed"@, "outline"@, "features"@];
            &&& flags.contains(field) ==> !starts(field, "pages="@) && !starts(field, "mapping="@)
            &&& flags.no_duplicates()
            &&& flags[0] == "links"@ && flags[1] == "media"@ && flags[2] == "mixed"@
            &&& flags[3] == "outline"@ && flags[4] == "features"@ && flags.len() == 5
        }),
{
    reveal_strlit("links");
    reveal_strlit("media");
    reveal_strlit("mixed");
    reveal_strlit("outline");
    reveal_strlit("features");
    reveal_strlit("pages=");
    reveal_strlit("mapping=");
    assert("links"@[0] == 'l');
    assert("media"@[1] == 'e');
    assert("mixed"@[1] == 'i');
    assert("media"@[0] == 'm');
    assert("mixed"@[0] == 'm');
    assert("outline"@[0] == 'o');
    assert("features"@[0] == 'f');
    assert("pages="@[0] == 'p');
    assert("mapping="@[0] == 'm');
    if starts(field, "pages="@) {
        assert(field.take(6)[0] == field[0]);
    }
    if starts(field, "mapping="@) {
        assert(field.take(8)[0] == field[0]);
    }
}

/// A link within a deck leads from a page to the next, which there is.
pub proof fn law_links_lead_on(deck: Deck, page: nat, i: int)
    requires
        page < deck.page_count,
        0 <= i < link_values(deck, page).len(),
    ensures
        match link_values(deck, page)[i].1 {
            Some(target) => target == page + 1 && target < deck.page_count,
            None => link_values(deck, page)[i].2.len() > 0,
        },
{
    reveal_strlit("pulpit://video/clip?autoplay");
    reveal_strlit("pulpit://hologram/x");
    reveal_strlit("https://example.com/pulpit");
}

/// A deck whose path gives a number of pages has as many.
pub proof fn law_a_deck_has_the_pages_that_are_given(count: usize)
    ensures
        deck_of("fixture:pages="@ + decimal_text(count as nat)).page_count == count,
{
    let digits = decimal_text(count as nat);
    let path = "fixture:pages="@ + digits;
    let field = "pages="@ + digits;
    let mark = seq!['&'];
    reveal_strlit("fixture:pages=");
    reveal_strlit("fixture:");
    reveal_strlit("pages=");
    lemma_decimal_bytes(count as nat);
    law_decimal_reads_back(count as nat);
    assert(path.take(8) =~= "fixture:"@);
    assert(path.skip(8) =~= field);
    assert(mark[0] == '&');
    assert forall|j: int| 0 <= j < field.len() implies !mark.contains(#[trigger] field[j]) by {
        if j >= 6 {
            assert(field[j] == digits[j - 6]);
        }
    }
    assert(mark.contains('&'));
    law_a_text_is_cut_at_its_separators(field, '&', Seq::empty(), mark);
    let fields = seq![field];
    reveal_with_fuel(with_fields, 2);
    assert(field.take(6) =~= "pages="@);
    assert(field.skip(6) =~= digits);
    assert(starts(field, "pages="@));
    assert(pages_value(digits) == count);
}

/// The border is as wide on each side as on the one across.
pub proof fn law_the_border_is_the_same_on_all_sides(width: int, height: int, x: int, y: int)
    ensures
        on_border(width, height, x, y) == on_border(width, height, width - 1 - x, y),
        on_border(width, height, x, y) == on_border(width, height, x, height - 1 - y),
        on_border(width, height, x, y) == on_border(height, width, y, x),
{
}

/// All pages of a deck are as high as each other; those of a plain deck are as wide
/// too, and those of a mixed one in turn wide and narrow, the first of them wide.
pub proof fn law_pages_of_a_mixed_deck_alternate(deck: Deck, page: nat)
    ensures
        deck_size(deck, page as int).height == deck_size(deck, 0).height,
        deck_size(deck, page as int + 2) == deck_size(deck, page as int),
        !deck.mixed ==> deck_size(deck, page as int + 1) == deck_size(deck, page as int),
        deck.mixed ==> deck_size(deck, page as int + 1) != deck_size(deck, page as int),
        deck.mixed ==> deck_size(deck, 1).width < deck_size(deck, 0).width,
{
}

/// A page can be asked for exactly where its document is open and has it.
pub proof fn law_pages_of_open_decks_are_drawn(
    open: OpenDecks,
    document: BackendDocumentId,
    page: nat,
)
    ensures
        page_fault(open, document, page) is None <==> open.decks.dom().contains(document.0) && page
            < open.decks[document.0].page_count,
{
}

} // verus!
