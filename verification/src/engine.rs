//! The trusted boundary to the `parcel_css` rule engine.
//!
//! The engine parses and serializes selectors, declaration blocks, media
//! queries, keyframes and whole rules. Its values are opaque here: each
//! outside type used in a field or signature is declared below, and every
//! call goes through a small trusted wrapper whose contract names the result
//! or states what the engine's source shows. The engine is pure: a parse or
//! print call depends on its arguments alone, which is what lets a result
//! carry a name.
//!
//! Parse wrappers that hand the engine a borrowed string leak one owned copy
//! per call, so the parsed value can outlive the borrowed text.

use vstd::prelude::*;

verus! {

// ---------------------------------------------------------------------------
// Declared engine types. Values of these are opaque: the logic never looks
// inside one, it only carries them and hands them back to the engine.
// ---------------------------------------------------------------------------

#[verifier::external_type_specification]
#[verifier::external_body]
pub struct ExCssRule<'a>(parcel_css::rules::CssRule<'a>);

#[verifier::external_type_specification]
#[verifier::external_body]
pub struct ExStyleRule<'a>(parcel_css::rules::style::StyleRule<'a>);

#[verifier::external_type_specification]
#[verifier::external_body]
pub struct ExMediaQuery<'a>(parcel_css::media_query::MediaQuery<'a>);

#[verifier::external_type_specification]
#[verifier::external_body]
pub struct ExSupportsCondition<'a>(parcel_css::rules::supports::SupportsCondition<'a>);

#[verifier::external_type_specification]
#[verifier::external_body]
pub struct ExKeyframeSelector(parcel_css::rules::keyframes::KeyframeSelector);

#[verifier::external_type_specification]
#[verifier::external_body]
pub struct ExDeclarationBlock<'a>(parcel_css::declaration::DeclarationBlock<'a>);

#[verifier::external_type_specification]
#[verifier::external_body]
pub struct ExProperty<'a>(parcel_css::properties::Property<'a>);

#[verifier::external_type_specification]
#[verifier::external_body]
pub struct ExKeyframe<'a>(parcel_css::rules::keyframes::Keyframe<'a>);

// ---------------------------------------------------------------------------
// Style rules: selector text, declaration block access, serialization.
// ---------------------------------------------------------------------------

/// The text the engine prints for a style rule's selector list.
pub uninterp spec fn style_selector_text(s: parcel_css::rules::style::StyleRule<'static>) -> Seq<char>;

/// Relies on cssparser::ToCss for parcel_selectors::SelectorList: prints the
/// selector list of a style rule. Printing depends on the value alone.
#[verifier::external_body]
pub fn style_selector_text_str(s: &parcel_css::rules::style::StyleRule<'static>) -> (r: String)
    ensures
        r@ == style_selector_text(*s),
{
    cssparser::ToCss::to_css_string(&s.selectors)
}

/// Whether the engine accepts `text` as a selector list.
pub uninterp spec fn selector_parse_ok(text: Seq<char>) -> bool;

/// The style rule with its selector list replaced by the parse of `text`.
pub uninterp spec fn style_with_selector(
    s: parcel_css::rules::style::StyleRule<'static>,
    text: Seq<char>,
) -> parcel_css::rules::style::StyleRule<'static>;

/// Relies on CssRule::parse and Parser::expect_exhausted: `text` followed by
/// an empty block parses as exactly one style rule iff `text` is a selector
/// list; on success that parse's selector list replaces the rule's selectors
/// and the rest of the rule is untouched; on failure the rule is untouched.
/// Parsing depends on the text alone.
#[verifier::external_body]
pub fn style_set_selector_text(
    s: &mut parcel_css::rules::style::StyleRule<'static>,
    text: &str,
) -> (ok: bool)
    ensures
        ok == selector_parse_ok(text@),
        !ok ==> *final(s) == *old(s),
        ok ==> *final(s) == style_with_selector(*old(s), text@),
{
    let leaked: &'static str = Box::leak([text, "{}"].concat().into_boxed_str());
    let mut input = cssparser::ParserInput::new(leaked);
    let mut parser = cssparser::Parser::new(&mut input);
    let parsed = parcel_css::rules::CssRule::parse(
        &mut parser, &parcel_css::stylesheet::ParserOptions::default());
    match parsed {
        Ok(parcel_css::rules::CssRule::Style(mut sr)) if parser.expect_exhausted().is_ok() => {
            std::mem::swap(&mut s.selectors, &mut sr.selectors);
            true
        }
        _ => false,
    }
}

/// The text the engine prints for a whole style rule.
pub uninterp spec fn style_css_text(s: parcel_css::rules::style::StyleRule<'static>) -> Seq<char>;

/// Relies on parcel_css ToCss for CssRule: prints the whole style rule.
#[verifier::external_body]
pub fn style_css_text_str(s: &parcel_css::rules::style::StyleRule<'static>) -> (r: String)
    ensures
        r@ == style_css_text(*s),
{
    let rule = parcel_css::rules::CssRule::Style(s.clone());
    parcel_css::traits::ToCss::to_css_string(&rule, parcel_css::stylesheet::PrinterOptions::default())
        .unwrap_or(String::new())
}

/// The declaration block held by a style rule.
pub uninterp spec fn style_block_of(
    s: parcel_css::rules::style::StyleRule<'static>,
) -> parcel_css::declaration::DeclarationBlock<'static>;

/// Relies on the public `declarations` field of StyleRule.
#[verifier::external_body]
pub fn style_block<'a>(s: &'a parcel_css::rules::style::StyleRule<'static>) -> (r: &'a parcel_css::declaration::DeclarationBlock<'static>)
    ensures
        *r == style_block_of(*s),
{
    &s.declarations
}

/// The style rule with its declaration block replaced.
pub uninterp spec fn style_with_block(
    s: parcel_css::rules::style::StyleRule<'static>,
    b: parcel_css::declaration::DeclarationBlock<'static>,
) -> parcel_css::rules::style::StyleRule<'static>;

/// Relies on the public `declarations` field of StyleRule: the returned
/// borrow is that field, and writing through it changes nothing else.
#[verifier::external_body]
pub fn style_block_mut<'a>(s: &'a mut parcel_css::rules::style::StyleRule<'static>) -> (r: &'a mut parcel_css::declaration::DeclarationBlock<'static>)
    ensures
        *r == style_block_of(*old(s)),
        *final(s) == style_with_block(*old(s), *final(r)),
        style_block_of(*final(s)) == *final(r),
        style_selector_text(*final(s)) == style_selector_text(*old(s)),
        *final(r) == style_block_of(*old(s)) ==> *final(s) == *old(s),
{
    &mut s.declarations
}

/// Relies on Clone for StyleRule: the clone is the same value.
#[verifier::external_body]
pub fn clone_style(s: &parcel_css::rules::style::StyleRule<'static>) -> (r: parcel_css::rules::style::StyleRule<'static>)
    ensures
        r == *s,
{
    s.clone()
}


// ---------------------------------------------------------------------------
// Declaration blocks: parse, print, lookup, set, remove.
// ---------------------------------------------------------------------------

/// The declaration block the engine parses from `text`, if it accepts it.
pub uninterp spec fn parsed_block(text: Seq<char>) -> Option<parcel_css::declaration::DeclarationBlock<'static>>;

/// Relies on DeclarationBlock::parse_string. Parsing depends on the text alone.
#[verifier::external_body]
pub fn parse_block(text: &str) -> (r: Option<parcel_css::declaration::DeclarationBlock<'static>>)
    ensures
        r == parsed_block(text@),
{
    let leaked: &'static str = Box::leak(String::from(text).into_boxed_str());
    parcel_css::declaration::DeclarationBlock::parse_string(
        leaked, parcel_css::stylesheet::ParserOptions::default()).ok()
}

/// The text the engine prints for a declaration block.
pub uninterp spec fn block_css_text(b: parcel_css::declaration::DeclarationBlock<'static>) -> Seq<char>;

/// Relies on parcel_css ToCss for DeclarationBlock.
#[verifier::external_body]
pub fn block_css_text_str(b: &parcel_css::declaration::DeclarationBlock<'static>) -> (r: String)
    ensures
        r@ == block_css_text(*b),
{
    parcel_css::traits::ToCss::to_css_string(b, parcel_css::stylesheet::PrinterOptions::default())
        .unwrap_or(String::new())
}

/// The properties of a declaration block, in iteration order.
pub uninterp spec fn block_props(b: parcel_css::declaration::DeclarationBlock<'static>) -> Seq<parcel_css::properties::Property<'static>>;

/// Relies on DeclarationBlock::iter: yields the block's properties in order.
#[verifier::external_body]
pub fn block_properties(b: &parcel_css::declaration::DeclarationBlock<'static>) -> (r: Vec<parcel_css::properties::Property<'static>>)
    ensures
        r@ == block_props(*b),
{
    b.iter().map(|(p, _)| p.clone()).collect()
}

/// The longhand property names a property expands to (or its own name).
pub uninterp spec fn prop_longhands(p: parcel_css::properties::Property<'static>) -> Seq<Seq<char>>;

/// Relies on Property::property_id, PropertyId::longhands and
/// PropertyId::name: the longhand names of a shorthand property, or the
/// property's own name.
#[verifier::external_body]
pub fn property_longhands(p: &parcel_css::properties::Property<'static>) -> (r: Vec<String>)
    ensures
        r.deep_view() == prop_longhands(*p),
{
    let id = p.property_id();
    match id.longhands() {
        Some(ids) => ids.iter().map(|l| l.name().to_owned()).collect(),
        None => vec![id.name().to_owned()],
    }
}

/// The value text and importance the engine reports for a property name in a
/// block, if the name is known and the block has a value for it.
pub uninterp spec fn block_prop(
    b: parcel_css::declaration::DeclarationBlock<'static>,
    name: Seq<char>,
) -> Option<(Seq<char>, bool)>;

/// Relies on PropertyId::from, DeclarationBlock::get and
/// Property::value_to_css_string: looks a property up by name and prints its
/// value. The result depends on the block and the name alone.
#[verifier::external_body]
pub fn block_lookup(b: &parcel_css::declaration::DeclarationBlock<'static>, name: &str) -> (r: Option<(String, bool)>)
    ensures
        match r {
            Some(p) => block_prop(*b, name@) == Some((p.0@, p.1)),
            None => block_prop(*b, name@) is None,
        },
{
    let id = parcel_css::properties::PropertyId::from(name);
    let (value, important) = b.get(&id)?;
    let text = value.value_to_css_string(parcel_css::stylesheet::PrinterOptions::default()).ok()?;
    Some((text, important))
}

/// Whether the engine accepts `value` as a value for the property `name`.
pub uninterp spec fn prop_parse_ok(name: Seq<char>, value: Seq<char>) -> bool;

/// The block after setting `name` to the parse of `value` with the given
/// importance.
pub uninterp spec fn block_with_set(
    b: parcel_css::declaration::DeclarationBlock<'static>,
    name: Seq<char>,
    value: Seq<char>,
    important: bool,
) -> parcel_css::declaration::DeclarationBlock<'static>;

/// Relies on Property::parse_string and DeclarationBlock::set: on success the
/// parsed property replaces or appends to the block's entry for that name; on
/// failure the block is untouched.
#[verifier::external_body]
pub fn block_set(b: &mut parcel_css::declaration::DeclarationBlock<'static>, name: &str, value: &str, important: bool) -> (ok: bool)
    ensures
        ok == prop_parse_ok(name@, value@),
        !ok ==> *final(b) == *old(b),
        ok ==> *final(b) == block_with_set(*old(b), name@, value@, important),
{
    let leaked_name: &'static str = Box::leak(String::from(name).into_boxed_str());
    let leaked_value: &'static str = Box::leak(String::from(value).into_boxed_str());
    let id = parcel_css::properties::PropertyId::from(leaked_name);
    let parsed = parcel_css::properties::Property::parse_string(
        id, leaked_value, parcel_css::stylesheet::ParserOptions::default());
    match parsed {
        Ok(p) => { b.set(p, important); true }
        Err(_) => false,
    }
}

/// The block after removing every declaration for the property `name`.
pub uninterp spec fn block_without(
    b: parcel_css::declaration::DeclarationBlock<'static>,
    name: Seq<char>,
) -> parcel_css::declaration::DeclarationBlock<'static>;

/// Relies on PropertyId::from and DeclarationBlock::remove.
#[verifier::external_body]
pub fn block_remove(b: &mut parcel_css::declaration::DeclarationBlock<'static>, name: &str)
    ensures
        *final(b) == block_without(*old(b), name@),
{
    let id = parcel_css::properties::PropertyId::from(name);
    b.remove(&id);
}

/// Relies on Clone for DeclarationBlock: the clone is the same value.
#[verifier::external_body]
pub fn clone_block(b: &parcel_css::declaration::DeclarationBlock<'static>) -> (r: parcel_css::declaration::DeclarationBlock<'static>)
    ensures
        r == *b,
{
    b.clone()
}


// ---------------------------------------------------------------------------
// Media queries.
// ---------------------------------------------------------------------------

/// The media query list the engine parses from `text`, if it accepts it.
pub uninterp spec fn parsed_media(text: Seq<char>) -> Option<Seq<parcel_css::media_query::MediaQuery<'static>>>;

/// Relies on MediaList::parse. Parsing depends on the text alone.
#[verifier::external_body]
pub fn parse_media_queries(text: &str) -> (r: Option<Vec<parcel_css::media_query::MediaQuery<'static>>>)
    ensures
        match r {
            Some(qs) => parsed_media(text@) == Some(qs@),
            None => parsed_media(text@) is None,
        },
{
    let leaked: &'static str = Box::leak(String::from(text).into_boxed_str());
    let mut input = cssparser::ParserInput::new(leaked);
    let mut parser = cssparser::Parser::new(&mut input);
    match parcel_css::media_query::MediaList::parse(&mut parser) {
        Ok(list) => Some(list.media_queries),
        Err(_) => None,
    }
}

/// The single media query the engine parses from `text`, if it accepts it.
pub uninterp spec fn parsed_query(text: Seq<char>) -> Option<parcel_css::media_query::MediaQuery<'static>>;

/// Relies on MediaQuery::parse and Parser::expect_exhausted. Parsing depends
/// on the text alone.
#[verifier::external_body]
pub fn parse_one_query(text: &str) -> (r: Option<parcel_css::media_query::MediaQuery<'static>>)
    ensures
        r == parsed_query(text@),
{
    let leaked: &'static str = Box::leak(String::from(text).into_boxed_str());
    let mut input = cssparser::ParserInput::new(leaked);
    let mut parser = cssparser::Parser::new(&mut input);
    let q = parcel_css::media_query::MediaQuery::parse(&mut parser).ok()?;
    parser.expect_exhausted().ok()?;
    Some(q)
}

/// The text the engine prints for one media query.
pub uninterp spec fn query_css_text(q: parcel_css::media_query::MediaQuery<'static>) -> Seq<char>;

/// Relies on parcel_css ToCss for MediaQuery.
#[verifier::external_body]
pub fn query_text(q: &parcel_css::media_query::MediaQuery<'static>) -> (r: String)
    ensures
        r@ == query_css_text(*q),
{
    parcel_css::traits::ToCss::to_css_string(q, parcel_css::stylesheet::PrinterOptions::default())
        .unwrap_or(String::new())
}

/// What the derived PartialEq for MediaQuery answers on two values. Named
/// rather than equated with value equality: the type holds floats, whose
/// comparison is not equality.
pub uninterp spec fn query_eq_of(
    a: parcel_css::media_query::MediaQuery<'static>,
    b: parcel_css::media_query::MediaQuery<'static>,
) -> bool;

/// Relies on the derived PartialEq for MediaQuery: a comparison that depends
/// on the two values alone.
#[verifier::external_body]
pub fn query_eq(a: &parcel_css::media_query::MediaQuery<'static>, b: &parcel_css::media_query::MediaQuery<'static>) -> (r: bool)
    ensures
        r == query_eq_of(*a, *b),
{
    *a == *b
}

/// Relies on Clone for MediaQuery: the clone is the same value.
#[verifier::external_body]
pub fn clone_query(q: &parcel_css::media_query::MediaQuery<'static>) -> (r: parcel_css::media_query::MediaQuery<'static>)
    ensures
        r == *q,
{
    q.clone()
}

// ---------------------------------------------------------------------------
// Supports conditions.
// ---------------------------------------------------------------------------

/// The text the engine prints for a supports condition.
pub uninterp spec fn supports_css_text(c: parcel_css::rules::supports::SupportsCondition<'static>) -> Seq<char>;

/// Relies on parcel_css ToCss for SupportsCondition.
#[verifier::external_body]
pub fn supports_text(c: &parcel_css::rules::supports::SupportsCondition<'static>) -> (r: String)
    ensures
        r@ == supports_css_text(*c),
{
    parcel_css::traits::ToCss::to_css_string(c, parcel_css::stylesheet::PrinterOptions::default())
        .unwrap_or(String::new())
}

/// Relies on Clone for SupportsCondition: the clone is the same value.
#[verifier::external_body]
pub fn clone_supports(c: &parcel_css::rules::supports::SupportsCondition<'static>) -> (r: parcel_css::rules::supports::SupportsCondition<'static>)
    ensures
        r == *c,
{
    c.clone()
}

// ---------------------------------------------------------------------------
// Keyframe selectors.
// ---------------------------------------------------------------------------

/// The keyframe selector list the engine parses from `text` (comma-separated
/// percentages or the keywords `from` and `to`), if it accepts it.
pub uninterp spec fn parsed_kf_selectors(text: Seq<char>) -> Option<Seq<parcel_css::rules::keyframes::KeyframeSelector>>;

/// Relies on Parser::parse_comma_separated over KeyframeSelector::parse.
/// Parsing depends on the text alone.
#[verifier::external_body]
pub fn parse_kf_selectors(text: &str) -> (r: Option<Vec<parcel_css::rules::keyframes::KeyframeSelector>>)
    ensures
        match r {
            Some(sels) => parsed_kf_selectors(text@) == Some(sels@),
            None => parsed_kf_selectors(text@) is None,
        },
{
    let mut input = cssparser::ParserInput::new(text);
    let mut parser = cssparser::Parser::new(&mut input);
    parser.parse_comma_separated(<parcel_css::rules::keyframes::KeyframeSelector as parcel_css::traits::Parse>::parse).ok()
}

/// What the derived PartialEq for KeyframeSelector answers on two values.
/// Named rather than equated with value equality: a selector can hold a
/// percentage, a float, whose comparison is not equality.
pub uninterp spec fn kf_selector_eq_of(
    a: parcel_css::rules::keyframes::KeyframeSelector,
    b: parcel_css::rules::keyframes::KeyframeSelector,
) -> bool;

/// Relies on the derived PartialEq for KeyframeSelector: a comparison that
/// depends on the two values alone.
#[verifier::external_body]
pub fn kf_selector_eq(a: &parcel_css::rules::keyframes::KeyframeSelector, b: &parcel_css::rules::keyframes::KeyframeSelector) -> (r: bool)
    ensures
        r == kf_selector_eq_of(*a, *b),
{
    *a == *b
}

/// The text the engine prints for one keyframe selector.
pub uninterp spec fn kf_selector_css_text(s: parcel_css::rules::keyframes::KeyframeSelector) -> Seq<char>;

/// Relies on parcel_css ToCss for KeyframeSelector.
#[verifier::external_body]
pub fn kf_selector_text(s: &parcel_css::rules::keyframes::KeyframeSelector) -> (r: String)
    ensures
        r@ == kf_selector_css_text(*s),
{
    parcel_css::traits::ToCss::to_css_string(s, parcel_css::stylesheet::PrinterOptions::default())
        .unwrap_or(String::new())
}

/// Relies on Clone for Vec<KeyframeSelector>: the clone is the same sequence.
#[verifier::external_body]
pub fn clone_kf_selectors(v: &Vec<parcel_css::rules::keyframes::KeyframeSelector>) -> (r: Vec<parcel_css::rules::keyframes::KeyframeSelector>)
    ensures
        r@ == v@,
{
    v.clone()
}

// ---------------------------------------------------------------------------
// Rules of kinds this layer does not model (import, font-face, page, ...).
// ---------------------------------------------------------------------------

/// The text the engine prints for a rule carried through opaquely.
pub uninterp spec fn raw_css_text(r: parcel_css::rules::CssRule<'static>) -> Seq<char>;

/// Relies on parcel_css ToCss for CssRule.
#[verifier::external_body]
pub fn raw_css_text_str(rule: &parcel_css::rules::CssRule<'static>) -> (r: String)
    ensures
        r@ == raw_css_text(*rule),
{
    parcel_css::traits::ToCss::to_css_string(rule, parcel_css::stylesheet::PrinterOptions::default())
        .unwrap_or(String::new())
}

/// Relies on Clone for CssRule: the clone is the same value.
#[verifier::external_body]
pub fn clone_raw_rule(rule: &parcel_css::rules::CssRule<'static>) -> (r: parcel_css::rules::CssRule<'static>)
    ensures
        r == *rule,
{
    rule.clone()
}

} // verus!
