use vstd::prelude::*;
use vstd::slice::slice_to_vec;

verus! {

/// The handle under which the drawing surface knows a font. The runtime keeps it
/// and hands it back; it never looks inside.
#[verifier::external_type_specification]
#[verifier::external_body]
pub struct ExFontId(femtovg::FontId);

/// A font that waits to be handed to the drawing surface, or the handle that the
/// surface gave for it.
#[derive(Debug)]
pub enum FontOrId {
    Font(Vec<u8>),
    Id(femtovg::FontId),
}

/// A font and the name it was registered under.
#[derive(Debug)]
pub struct FontEntry {
    pub name: String,
    pub font: FontOrId,
}

/// The resources an application has registered: fonts by name, theme texts, and
/// the paths of the stylesheets to read when styles are reloaded.
#[derive(Debug)]
pub struct ResourceManager {
    pub fonts: Vec<FontEntry>,
    pub themes: Vec<String>,
    pub stylesheets: Vec<String>,
}

/// Appends `more` to `text`.
///
/// Wraps `String::push_str`, of which the standard library says that it appends the
/// given string slice onto the end of the string.
#[verifier::external_body]
pub(crate) fn push_str(text: &mut String, more: &str)
    ensures
        final(text)@ == old(text)@ + more@,
{
    text.push_str(more);
}

/// The texts one after another.
pub open spec fn concat_all(texts: Seq<String>) -> Seq<char>
    decreases texts.len(),
{
    if texts.len() == 0 {
        Seq::empty()
    } else {
        concat_all(texts.drop_last()) + texts.last()@
    }
}

/// Appends every text of `texts`, in order, to `out`.
pub fn append_all(out: &mut String, texts: &Vec<String>)
    ensures
        final(out)@ == old(out)@ + concat_all(texts@),
{
    let mut i: usize = 0;
    assert(texts@.take(0) =~= Seq::<String>::empty());
    assert(out@ =~= old(out)@ + concat_all(texts@.take(0)));
    while i < texts.len()
        invariant
            i <= texts.len(),
            out@ == old(out)@ + concat_all(texts@.take(i as int)),
        decreases texts.len() - i,
    {
        proof {
            assert(texts@.take(i + 1).drop_last() =~= texts@.take(i as int));
            assert(texts@.take(i + 1).last() == texts@[i as int]);
        }
        push_str(out, texts[i].as_str());
        i += 1;
        assert(out@ =~= old(out)@ + concat_all(texts@.take(i as int)));
    }
    assert(texts@.take(i as int) =~= texts@);
}

impl ResourceManager {
    /// Whether a font is registered under `name`.
    pub open spec fn has_font(&self, name: Seq<char>) -> bool {
        exists|i: int| 0 <= i < self.fonts@.len() && (#[trigger] self.fonts@[i]).name@ == name
    }

    /// Whether a font still waits to be handed to the drawing surface.
    pub open spec fn has_pending_font(&self) -> bool {
        exists|i: int| 0 <= i < self.fonts@.len() && (#[trigger] self.fonts@[i]).font is Font
    }

    /// No fonts, no themes, no stylesheets.
    pub fn new() -> (r: Self)
        ensures
            r.fonts@ == Seq::<FontEntry>::empty(),
            r.themes@ == Seq::<String>::empty(),
            r.stylesheets@ == Seq::<String>::empty(),
    {
        ResourceManager { fonts: Vec::new(), themes: Vec::new(), stylesheets: Vec::new() }
    }

    /// Whether a font is registered under `name`.
    pub fn contains_font(&self, name: &str) -> (b: bool)
        ensures
            b == self.has_font(name@),
    {
        let wanted: String = name.to_owned();
        let mut i: usize = 0;
        while i < self.fonts.len()
            invariant
                i <= self.fonts.len(),
                wanted@ == name@,
                forall|k: int| 0 <= k < i ==> (#[trigger] self.fonts@[k]).name@ != name@,
            decreases self.fonts.len() - i,
        {
            if self.fonts[i].name == wanted {
                return true;
            }
            i += 1;
        }
        false
    }

    /// Registers the font `data` under `name`, to be handed to the drawing surface
    /// on a later frame. A name that is taken keeps its font: the call changes
    /// nothing then and returns false.
    pub fn add_font_mem(&mut self, name: &str, data: &[u8]) -> (added: bool)
        ensures
            added == !old(self).has_font(name@),
            !added ==> *final(self) == *old(self),
            added ==> {
                &&& final(self).fonts@.len() == old(self).fonts@.len() + 1
                &&& final(self).fonts@.drop_last() == old(self).fonts@
                &&& final(self).fonts@.last().name@ == name@
                &&& final(self).fonts@.last().font == FontOrId::Font(final(self).fonts@.last().font->Font_0)
                &&& final(self).fonts@.last().font->Font_0@ == data@
                &&& final(self).themes == old(self).themes
                &&& final(self).stylesheets == old(self).stylesheets
            },
    {
        if self.contains_font(name) {
            return false;
        }
        let bytes: Vec<u8> = slice_to_vec(data);
        self.fonts.push(FontEntry { name: name.to_owned(), font: FontOrId::Font(bytes) });
        assert(self.fonts@.drop_last() =~= old(self).fonts@);
        true
    }

    /// The first font that still waits to be handed to the drawing surface.
    pub fn next_pending_font(&self) -> (r: Option<usize>)
        ensures
            r is Some == self.has_pending_font(),
            r matches Some(i) ==> i < self.fonts@.len() && self.fonts@[i as int].font is Font
                && forall|k: int| 0 <= k < i ==> !((#[trigger] self.fonts@[k]).font is Font),
    {
        let mut i: usize = 0;
        while i < self.fonts.len()
            invariant
                i <= self.fonts.len(),
                forall|k: int| 0 <= k < i ==> !((#[trigger] self.fonts@[k]).font is Font),
            decreases self.fonts.len() - i,
        {
            match &self.fonts[i].font {
                FontOrId::Font(_) => {
                    return Some(i);
                },
                FontOrId::Id(_) => {},
            }
            i += 1;
        }
        None
    }

    /// Records that the drawing surface knows font `i` under `id`.
    pub fn set_font_id(&mut self, i: usize, id: femtovg::FontId)
        requires
            i < old(self).fonts@.len(),
        ensures
            final(self).fonts@.len() == old(self).fonts@.len(),
            final(self).fonts@[i as int].font == FontOrId::Id(id),
            final(self).fonts@[i as int].name == old(self).fonts@[i as int].name,
            forall|k: int|
                0 <= k < old(self).fonts@.len() && k != i ==> final(self).fonts@[k] == old(self).fonts@[k],
            final(self).themes == old(self).themes,
            final(self).stylesheets == old(self).stylesheets,
    {
        self.fonts[i].font = FontOrId::Id(id);
    }
}

} // verus!
