//! The style registry: the text style of each style, the metrics of its font,
//! and the heights and offsets that follow from them.

use vstd::prelude::*;
use crate::style::Style;
use crate::units::{half, mul_div, MAX_LENGTH, UNIT};

verus! {

/// How text of one style is set. `height` is the line height as a multiple of
/// the font size; like every length it counts sub-units, so that `UNIT` stands
/// for a factor of one.
#[derive(Debug)]
pub struct TextStyle {
    pub font_family: String,
    pub font_size: i64,
    pub height: i64,
    pub letter_spacing: i64,
    pub word_spacing: i64,
}

/// A text style as a mathematical value.
pub struct TextStyleView {
    pub font_family: Seq<char>,
    pub font_size: i64,
    pub height: i64,
    pub letter_spacing: i64,
    pub word_spacing: i64,
}

/// The ascent and descent of a font at the size of a style, as the host
/// measured them. The ascent of a font lies above the baseline and is
/// negative.
#[derive(Clone, Copy, Debug, PartialEq, Eq, Structural)]
pub struct FontMetrics {
    pub ascent: i64,
    pub descent: i64,
}

impl FontMetrics {
    pub open spec fn valid(self) -> bool {
        &&& -MAX_LENGTH <= self.ascent <= MAX_LENGTH
        &&& -MAX_LENGTH <= self.descent <= MAX_LENGTH
    }

    /// Tests `valid`.
    pub fn is_valid(&self) -> (r: bool)
        ensures
            r == self.valid(),
    {
        -MAX_LENGTH <= self.ascent && self.ascent <= MAX_LENGTH && -MAX_LENGTH <= self.descent
            && self.descent <= MAX_LENGTH
    }
}

impl TextStyleView {
    /// The height of a line: the font size times the line height factor.
    pub open spec fn line_height(self) -> int {
        self.height * self.font_size / (UNIT as int)
    }

    /// Font size and factor may be handed in, and the line height is a length
    /// that may be handed on.
    pub open spec fn valid(self) -> bool {
        &&& 0 <= self.font_size <= MAX_LENGTH
        &&& 0 <= self.height <= MAX_LENGTH
        &&& self.line_height() <= MAX_LENGTH
    }

    /// The size that a chapter number has beside text of this style: twice the
    /// height of a line.
    pub open spec fn chapter_size(self) -> int {
        2 * self.font_size * self.height / (UNIT as int)
    }

    /// The style of chapter numbers that goes with this style of normal text:
    /// two lines high, with a line height factor of one.
    pub open spec fn chapter(self) -> TextStyleView {
        TextStyleView { font_size: self.chapter_size() as i64, height: UNIT, ..self }
    }
}

impl View for TextStyle {
    type V = TextStyleView;

    open spec fn view(&self) -> TextStyleView {
        TextStyleView {
            font_family: self.font_family@,
            font_size: self.font_size,
            height: self.height,
            letter_spacing: self.letter_spacing,
            word_spacing: self.word_spacing,
        }
    }
}

impl Clone for TextStyle {
    fn clone(&self) -> (r: Self)
        ensures
            r@ == self@,
    {
        TextStyle {
            font_family: self.font_family.clone(),
            font_size: self.font_size,
            height: self.height,
            letter_spacing: self.letter_spacing,
            word_spacing: self.word_spacing,
        }
    }
}

/// The line height of a valid style is not negative.
pub proof fn lemma_line_height_bounds(style: TextStyleView)
    requires
        style.valid(),
    ensures
        0 <= style.line_height() <= MAX_LENGTH,
{
    assert(0 <= style.height * style.font_size) by (nonlinear_arith)
        requires
            0 <= style.height,
            0 <= style.font_size,
    ;
    vstd::arithmetic::div_mod::lemma_div_pos_is_pos(style.height * style.font_size, UNIT as int);
}

/// A chapter style of a valid size is valid, and its line is as high as its
/// font is large.
pub proof fn lemma_chapter_valid(style: TextStyleView)
    requires
        style.valid(),
        style.chapter_size() <= MAX_LENGTH,
    ensures
        style.chapter().valid(),
        style.chapter().line_height() == style.chapter_size(),
        0 <= style.chapter_size(),
{
    assert(0 <= 2 * style.font_size * style.height) by (nonlinear_arith)
        requires
            0 <= style.height,
            0 <= style.font_size,
    ;
    vstd::arithmetic::div_mod::lemma_div_pos_is_pos(
        2 * style.font_size * style.height,
        UNIT as int,
    );
    let size = style.chapter_size();
    assert((UNIT as int) * size / (UNIT as int) == size) by {
        vstd::arithmetic::div_mod::lemma_div_multiples_vanish(size, UNIT as int);
        assert((UNIT as int) * size == size * (UNIT as int)) by (nonlinear_arith);
    }
}

impl TextStyle {
    /// Tests whether the style is valid.
    pub fn is_valid(&self) -> (r: bool)
        ensures
            r == self@.valid(),
    {
        if 0 <= self.font_size && self.font_size <= MAX_LENGTH && 0 <= self.height && self.height
            <= MAX_LENGTH {
            self.line_height() <= MAX_LENGTH
        } else {
            false
        }
    }

    /// The height of a line of this style.
    pub fn line_height(&self) -> (r: i64)
        requires
            0 <= self.font_size <= MAX_LENGTH,
            0 <= self.height <= MAX_LENGTH,
        ensures
            r == self@.line_height(),
            0 <= r,
    {
        proof {
            lemma_product_bounds(self.height as int, self.font_size as int);
            vstd::arithmetic::div_mod::lemma_div_pos_is_pos(
                self.height * self.font_size,
                UNIT as int,
            );
            vstd::arithmetic::div_mod::lemma_div_is_ordered_by_denominator(
                self.height * self.font_size,
                1,
                UNIT as int,
            );
        }
        mul_div(self.height, self.font_size, UNIT)
    }

    /// The size of chapter numbers beside this style, if it is a length that
    /// may be handed on.
    pub fn chapter_size(&self) -> (r: Option<i64>)
        requires
            0 <= self.font_size <= MAX_LENGTH,
            0 <= self.height <= MAX_LENGTH,
        ensures
            r is Some <==> self@.chapter_size() <= MAX_LENGTH,
            r is Some ==> r->0 == self@.chapter_size(),
    {
        proof {
            lemma_product_bounds(self.height as int, self.font_size as int);
            assert(2 * self.font_size * self.height == (2 * self.font_size) * self.height)
                by (nonlinear_arith);
            assert(0 <= (2 * self.font_size) * self.height <= 0x7fff_ffff_ffff_ffff)
                by (nonlinear_arith)
                requires
                    0 <= self.font_size <= 0x3ff_ffff,
                    0 <= self.height <= 0x3ff_ffff,
            ;
            vstd::arithmetic::div_mod::lemma_div_pos_is_pos(
                (2 * self.font_size) * self.height,
                UNIT as int,
            );
            vstd::arithmetic::div_mod::lemma_div_is_ordered_by_denominator(
                (2 * self.font_size) * self.height,
                1,
                UNIT as int,
            );
        }
        let size = mul_div(2 * self.font_size, self.height, UNIT);
        if size <= MAX_LENGTH {
            Some(size)
        } else {
            None
        }
    }
}

/// The product of two lengths fits in `i64`.
pub proof fn lemma_product_bounds(a: int, b: int)
    requires
        0 <= a <= MAX_LENGTH,
        0 <= b <= MAX_LENGTH,
    ensures
        0 <= a * b <= 0xf_ffff_f800_0001,
{
    assert(0 <= a * b <= 0xf_ffff_f800_0001) by (nonlinear_arith)
        requires
            0 <= a <= 0x3ff_ffff,
            0 <= b <= 0x3ff_ffff,
    ;
}

/// The registry as a mathematical value.
pub struct Registry {
    pub styles: Map<Style, TextStyleView>,
    pub metrics: Map<Style, FontMetrics>,
}

impl Registry {
    /// Every registered style and every registered metric is valid.
    pub open spec fn wf(self) -> bool {
        &&& forall|s: Style| self.styles.contains_key(s) ==> (#[trigger] self.styles[s]).valid()
        &&& forall|s: Style| self.metrics.contains_key(s) ==> (#[trigger] self.metrics[s]).valid()
    }

    /// The style is registered.
    pub open spec fn has_style(self, style: Style) -> bool {
        self.styles.contains_key(style)
    }

    /// The style and the metrics of its font are registered.
    pub open spec fn has_padding(self, style: Style) -> bool {
        self.styles.contains_key(style) && self.metrics.contains_key(style)
    }

    /// The height of a line of the style.
    pub open spec fn line_height(self, style: Style) -> int {
        self.styles[style].line_height()
    }

    /// The height of a line of the style, less what its font fills of it.
    pub open spec fn line_padding(self, style: Style) -> int {
        self.line_height(style) + self.metrics[style].ascent - self.metrics[style].descent
    }

    /// How far below the top of its line text of the style is placed: a verse
    /// number by half the padding of a normal line, anything else not at all.
    pub open spec fn top_offset(self, style: Style) -> int {
        match style {
            Style::Verse => self.line_padding(Style::Normal) / 2,
            _ => 0,
        }
    }

    /// The registry after a style was installed.
    pub open spec fn insert_style(self, style: Style, text_style: TextStyleView) -> Registry {
        Registry { styles: self.styles.insert(style, text_style), ..self }
    }

    /// The registry after the metrics of a style were installed.
    pub open spec fn insert_metrics(self, style: Style, metrics: FontMetrics) -> Registry {
        Registry { metrics: self.metrics.insert(style, metrics), ..self }
    }

    /// The registry after a style was registered: with the normal style comes
    /// the style of chapter numbers that is made from it.
    pub open spec fn register_style(self, style: Style, text_style: TextStyleView) -> Registry {
        match style {
            Style::Normal => self.insert_style(style, text_style).insert_style(
                Style::Chapter,
                text_style.chapter(),
            ),
            _ => self.insert_style(style, text_style),
        }
    }
}

/// The offsets of a well-formed registry are small.
pub proof fn lemma_top_offset_bounds(registry: Registry, style: Style)
    requires
        registry.wf(),
        registry.has_padding(Style::Normal),
    ensures
        -MAX_LENGTH <= registry.top_offset(style) <= 2 * MAX_LENGTH,
{
    lemma_line_height_bounds(registry.styles[Style::Normal]);
    assert(registry.metrics[Style::Normal].valid());
}

/// The style registry.
#[derive(Debug)]
pub struct Renderer {
    verse: Option<TextStyle>,
    normal: Option<TextStyle>,
    header: Option<TextStyle>,
    chapter: Option<TextStyle>,
    verse_metrics: Option<FontMetrics>,
    normal_metrics: Option<FontMetrics>,
    header_metrics: Option<FontMetrics>,
    chapter_metrics: Option<FontMetrics>,
}

impl Renderer {
    pub closed spec fn slot(&self, style: Style) -> Option<TextStyle> {
        match style {
            Style::Verse => self.verse,
            Style::Normal => self.normal,
            Style::Header => self.header,
            Style::Chapter => self.chapter,
        }
    }

    pub closed spec fn metrics_slot(&self, style: Style) -> Option<FontMetrics> {
        match style {
            Style::Verse => self.verse_metrics,
            Style::Normal => self.normal_metrics,
            Style::Header => self.header_metrics,
            Style::Chapter => self.chapter_metrics,
        }
    }
}

impl View for Renderer {
    type V = Registry;

    closed spec fn view(&self) -> Registry {
        Registry {
            styles: Map::new(|s: Style| self.slot(s) is Some, |s: Style| self.slot(s)->0@),
            metrics: Map::new(
                |s: Style| self.metrics_slot(s) is Some,
                |s: Style| self.metrics_slot(s)->0,
            ),
        }
    }
}

impl Clone for Renderer {
    fn clone(&self) -> (r: Self)
        ensures
            r@ == self@,
    {
        let r = Renderer {
            verse: clone_style(&self.verse),
            normal: clone_style(&self.normal),
            header: clone_style(&self.header),
            chapter: clone_style(&self.chapter),
            verse_metrics: self.verse_metrics,
            normal_metrics: self.normal_metrics,
            header_metrics: self.header_metrics,
            chapter_metrics: self.chapter_metrics,
        };
        proof {
            assert forall|s: Style| r.slot(s) is Some <==> self.slot(s) is Some by {}
            assert(r@.styles =~= self@.styles);
            assert(r@.metrics =~= self@.metrics);
        }
        r
    }
}

fn clone_style(style: &Option<TextStyle>) -> (r: Option<TextStyle>)
    ensures
        r is Some <==> style is Some,
        r is Some ==> r->0@ == style->0@,
{
    match style {
        Some(s) => Some(s.clone()),
        None => None,
    }
}

impl Renderer {
    /// An empty registry.
    pub fn new() -> (r: Self)
        ensures
            r@.styles == Map::<Style, TextStyleView>::empty(),
            r@.metrics == Map::<Style, FontMetrics>::empty(),
            r@.wf(),
    {
        let r = Renderer {
            verse: None,
            normal: None,
            header: None,
            chapter: None,
            verse_metrics: None,
            normal_metrics: None,
            header_metrics: None,
            chapter_metrics: None,
        };
        proof {
            assert(r@.styles =~= Map::<Style, TextStyleView>::empty());
            assert(r@.metrics =~= Map::<Style, FontMetrics>::empty());
        }
        r
    }

    /// Installs a style, in place of the one that was there.
    pub fn insert_style(&mut self, style: Style, text_style: TextStyle)
        requires
            old(self)@.wf(),
            text_style@.valid(),
        ensures
            final(self)@ == old(self)@.insert_style(style, text_style@),
            final(self)@.wf(),
    {
        match style {
            Style::Verse => {
                self.verse = Some(text_style);
            },
            Style::Normal => {
                self.normal = Some(text_style);
            },
            Style::Header => {
                self.header = Some(text_style);
            },
            Style::Chapter => {
                self.chapter = Some(text_style);
            },
        }
        proof {
            let expected = old(self)@.insert_style(style, text_style@);
            assert forall|s: Style| self.slot(s) is Some <==> (s == style || old(self).slot(
                s,
            ) is Some) by {}
            assert(self@.styles =~= expected.styles);
            assert(self@.metrics =~= expected.metrics);
        }
    }

    /// Installs the metrics of the font of a style.
    pub fn insert_metrics(&mut self, style: Style, metrics: FontMetrics)
        requires
            old(self)@.wf(),
            metrics.valid(),
        ensures
            final(self)@ == old(self)@.insert_metrics(style, metrics),
            final(self)@.wf(),
    {
        match style {
            Style::Verse => {
                self.verse_metrics = Some(metrics);
            },
            Style::Normal => {
                self.normal_metrics = Some(metrics);
            },
            Style::Header => {
                self.header_metrics = Some(metrics);
            },
            Style::Chapter => {
                self.chapter_metrics = Some(metrics);
            },
        }
        proof {
            let expected = old(self)@.insert_metrics(style, metrics);
            assert forall|s: Style| self.metrics_slot(s) is Some <==> (s == style || old(
                self,
            ).metrics_slot(s) is Some) by {}
            assert(self@.styles =~= expected.styles);
            assert(self@.metrics =~= expected.metrics);
        }
    }

    /// Registers a style. With the normal style the style of chapter numbers
    /// is made from it and installed too; registering the chapter style
    /// afterwards replaces it.
    pub fn register_style(&mut self, style: Style, text_style: TextStyle)
        requires
            old(self)@.wf(),
            text_style@.valid(),
            style == Style::Normal ==> text_style@.chapter_size() <= MAX_LENGTH,
        ensures
            final(self)@ == old(self)@.register_style(style, text_style@),
            final(self)@.wf(),
    {
        match style {
            Style::Normal => {
                let size = text_style.chapter_size();
                proof {
                    lemma_chapter_valid(text_style@);
                }
                let chapter = TextStyle {
                    font_family: text_style.font_family.clone(),
                    font_size: size.unwrap(),
                    height: UNIT,
                    letter_spacing: text_style.letter_spacing,
                    word_spacing: text_style.word_spacing,
                };
                self.insert_style(style, text_style);
                self.insert_style(Style::Chapter, chapter);
            },
            _ => {
                self.insert_style(style, text_style);
            },
        }
    }

    /// Whether a style is registered.
    pub fn has_style(&self, style: Style) -> (r: bool)
        ensures
            r == self@.has_style(style),
    {
        match style {
            Style::Verse => self.verse.is_some(),
            Style::Normal => self.normal.is_some(),
            Style::Header => self.header.is_some(),
            Style::Chapter => self.chapter.is_some(),
        }
    }

    /// Whether a style and the metrics of its font are registered.
    pub fn has_padding(&self, style: Style) -> (r: bool)
        ensures
            r == self@.has_padding(style),
    {
        self.has_style(style) && match style {
            Style::Verse => self.verse_metrics.is_some(),
            Style::Normal => self.normal_metrics.is_some(),
            Style::Header => self.header_metrics.is_some(),
            Style::Chapter => self.chapter_metrics.is_some(),
        }
    }

    /// The registered style.
    pub fn get_style(&self, style: Style) -> (r: &TextStyle)
        requires
            self@.has_style(style),
        ensures
            r@ == self@.styles[style],
    {
        match style {
            Style::Verse => self.verse.as_ref().unwrap(),
            Style::Normal => self.normal.as_ref().unwrap(),
            Style::Header => self.header.as_ref().unwrap(),
            Style::Chapter => self.chapter.as_ref().unwrap(),
        }
    }

    /// The registered metrics of the font of a style.
    pub fn get_metrics(&self, style: Style) -> (r: FontMetrics)
        requires
            self@.metrics.contains_key(style),
        ensures
            r == self@.metrics[style],
    {
        match style {
            Style::Verse => self.verse_metrics.unwrap(),
            Style::Normal => self.normal_metrics.unwrap(),
            Style::Header => self.header_metrics.unwrap(),
            Style::Chapter => self.chapter_metrics.unwrap(),
        }
    }

    /// The height of a line of the style.
    pub fn line_height(&self, style: Style) -> (r: i64)
        requires
            self@.wf(),
            self@.has_style(style),
        ensures
            r == self@.line_height(style),
            0 <= r <= MAX_LENGTH,
    {
        let text_style = self.get_style(style);
        assert(text_style@.valid());
        text_style.line_height()
    }

    /// The height of a line of the style, less what its font fills of it.
    pub fn line_padding(&self, style: Style) -> (r: i64)
        requires
            self@.wf(),
            self@.has_padding(style),
        ensures
            r == self@.line_padding(style),
    {
        let height = self.line_height(style);
        let metrics = self.get_metrics(style);
        assert(metrics.valid());
        height + metrics.ascent - metrics.descent
    }

    /// How far below the top of its line text of the style is placed.
    pub fn top_offset(&self, style: Style) -> (r: i64)
        requires
            self@.wf(),
            style == Style::Verse ==> self@.has_padding(Style::Normal),
        ensures
            r == self@.top_offset(style),
    {
        match style {
            Style::Verse => half(self.line_padding(Style::Normal)),
            _ => 0,
        }
    }
}

} // verus!
