use crate::cache::{Display, Visibility, OPAQUE};
use crate::entity::{lemma_skip_contains, Entity};
use crate::storage::{SparseSet, StorageError};
use vstd::prelude::*;

verus! {

/// A length as a style states it, in whole layout units or hundredths.
#[derive(Clone, Copy, Debug, PartialEq, Eq, Structural)]
pub enum Units {
    Pixels(i32),
    Percentage(i32),
    Stretch(i32),
    Auto,
}

/// Whether a node's place is decided by itself or together with its siblings.
#[derive(Clone, Copy, Debug, PartialEq, Eq, Structural)]
pub enum PositionType {
    SelfDirected,
    ParentDirected,
}

/// A colour with its opacity, each part from 0 to 255.
#[derive(Clone, Copy, Debug, PartialEq, Eq, Structural)]
pub struct Color {
    pub r: u8,
    pub g: u8,
    pub b: u8,
    pub a: u8,
}

impl Color {
    /// The colour that paints nothing.
    pub open spec fn spec_transparent() -> Color {
        Color { r: 0, g: 0, b: 0, a: 0 }
    }

    #[verifier::when_used_as_spec(spec_transparent)]
    pub fn transparent() -> (c: Color)
        ensures
            c == Color::spec_transparent(),
    {
        Color { r: 0, g: 0, b: 0, a: 0 }
    }

    /// Opaque white.
    pub fn white() -> (c: Color)
        ensures
            c == (Color { r: 255, g: 255, b: 255, a: 255 }),
    {
        Color { r: 255, g: 255, b: 255, a: 255 }
    }

    /// The colour with the given parts.
    pub fn rgba(r: u8, g: u8, b: u8, a: u8) -> (c: Color)
        ensures
            c == (Color { r, g, b, a }),
    {
        Color { r, g, b, a }
    }
}

/// The states of an entity that a selector can ask for.
#[derive(Clone, Copy, Debug, PartialEq, Eq, Structural)]
pub struct PseudoClasses {
    pub hover: bool,
    pub active: bool,
    pub focus: bool,
    pub checked: bool,
}

impl PseudoClasses {
    /// No state is set.
    pub open spec fn spec_none() -> PseudoClasses {
        PseudoClasses { hover: false, active: false, focus: false, checked: false }
    }

    #[verifier::when_used_as_spec(spec_none)]
    pub fn none() -> (p: PseudoClasses)
        ensures
            p == PseudoClasses::spec_none(),
    {
        PseudoClasses { hover: false, active: false, focus: false, checked: false }
    }

    /// Every state that `wanted` asks for is set in `self`.
    pub open spec fn includes(self, wanted: PseudoClasses) -> bool {
        &&& wanted.hover ==> self.hover
        &&& wanted.active ==> self.active
        &&& wanted.focus ==> self.focus
        &&& wanted.checked ==> self.checked
    }

    #[verifier::when_used_as_spec(includes)]
    pub fn has_all(self, wanted: PseudoClasses) -> (b: bool)
        ensures
            b == self.includes(wanted),
    {
        (!wanted.hover || self.hover) && (!wanted.active || self.active) && (!wanted.focus
            || self.focus) && (!wanted.checked || self.checked)
    }
}

/// One declaration of a rule or of an entity's own style.
#[derive(Clone, Copy, Debug, PartialEq, Eq, Structural)]
pub enum Property {
    Display(Display),
    Visibility(Visibility),
    Opacity(u8),
    ZOrder(i32),
    Left(Units),
    Top(Units),
    Width(Units),
    Height(Units),
    PositionType(PositionType),
    BackgroundColor(Color),
    /// A shift of the entity and everything below it, in whole layout units.
    Translate(i32, i32),
}

/// The style an entity ends up with once every declaration has been applied.
#[derive(Clone, Copy, Debug, PartialEq, Eq, Structural)]
pub struct Appearance {
    pub display: Display,
    pub visibility: Visibility,
    pub opacity: u8,
    /// The stacking level, where one was declared; otherwise the parent's is used.
    pub z_order: Option<i32>,
    pub left: Units,
    pub top: Units,
    pub width: Units,
    pub height: Units,
    pub position_type: PositionType,
    pub background_color: Color,
    pub translate_x: i32,
    pub translate_y: i32,
}

impl Appearance {
    /// What an entity looks like of which no declaration speaks.
    pub open spec fn spec_new() -> Appearance {
        Appearance {
            display: Display::Shown,
            visibility: Visibility::Visible,
            opacity: OPAQUE,
            z_order: None,
            left: Units::Auto,
            top: Units::Auto,
            width: Units::Auto,
            height: Units::Auto,
            position_type: PositionType::ParentDirected,
            background_color: Color::spec_transparent(),
            translate_x: 0,
            translate_y: 0,
        }
    }

    /// What an entity looks like of which no declaration speaks.
    #[verifier::when_used_as_spec(spec_new)]
    pub fn new() -> (a: Appearance)
        ensures
            a == Appearance::spec_new(),
    {
        Appearance {
            display: Display::Shown,
            visibility: Visibility::Visible,
            opacity: OPAQUE,
            z_order: None,
            left: Units::Auto,
            top: Units::Auto,
            width: Units::Auto,
            height: Units::Auto,
            position_type: PositionType::ParentDirected,
            background_color: Color::transparent(),
            translate_x: 0,
            translate_y: 0,
        }
    }

    /// The appearance with one more declaration applied: it overwrites what was
    /// there for its property and touches nothing else.
    pub open spec fn with(self, p: Property) -> Appearance {
        match p {
            Property::Display(v) => Appearance { display: v, ..self },
            Property::Visibility(v) => Appearance { visibility: v, ..self },
            Property::Opacity(v) => Appearance { opacity: v, ..self },
            Property::ZOrder(v) => Appearance { z_order: Some(v), ..self },
            Property::Left(v) => Appearance { left: v, ..self },
            Property::Top(v) => Appearance { top: v, ..self },
            Property::Width(v) => Appearance { width: v, ..self },
            Property::Height(v) => Appearance { height: v, ..self },
            Property::PositionType(v) => Appearance { position_type: v, ..self },
            Property::BackgroundColor(v) => Appearance { background_color: v, ..self },
            Property::Translate(x, y) => Appearance { translate_x: x, translate_y: y, ..self },
        }
    }

    #[verifier::when_used_as_spec(with)]
    pub fn with_property(self, p: Property) -> (a: Appearance)
        ensures
            a == self.with(p),
    {
        let mut a = self;
        match p {
            Property::Display(v) => {
                a.display = v;
            },
            Property::Visibility(v) => {
                a.visibility = v;
            },
            Property::Opacity(v) => {
                a.opacity = v;
            },
            Property::ZOrder(v) => {
                a.z_order = Some(v);
            },
            Property::Left(v) => {
                a.left = v;
            },
            Property::Top(v) => {
                a.top = v;
            },
            Property::Width(v) => {
                a.width = v;
            },
            Property::Height(v) => {
                a.height = v;
            },
            Property::PositionType(v) => {
                a.position_type = v;
            },
            Property::BackgroundColor(v) => {
                a.background_color = v;
            },
            Property::Translate(x, y) => {
                a.translate_x = x;
                a.translate_y = y;
            },
        }
        a
    }

    /// The two differ in something that decides where entities are placed.
    pub open spec fn geometry_differs(self, other: Appearance) -> bool {
        ||| self.display != other.display
        ||| self.left != other.left
        ||| self.top != other.top
        ||| self.width != other.width
        ||| self.height != other.height
        ||| self.position_type != other.position_type
    }

    /// The two differ in something that only decides how entities are painted.
    pub open spec fn paint_differs(self, other: Appearance) -> bool {
        ||| self.visibility != other.visibility
        ||| self.opacity != other.opacity
        ||| self.z_order != other.z_order
        ||| self.background_color != other.background_color
        ||| self.translate_x != other.translate_x
        ||| self.translate_y != other.translate_y
    }

    #[verifier::when_used_as_spec(geometry_differs)]
    pub fn is_geometry_change(self, other: Appearance) -> (b: bool)
        ensures
            b == self.geometry_differs(other),
    {
        self.display != other.display || self.left != other.left || self.top != other.top
            || self.width != other.width || self.height != other.height || self.position_type
            != other.position_type
    }

    #[verifier::when_used_as_spec(paint_differs)]
    pub fn is_paint_change(self, other: Appearance) -> (b: bool)
        ensures
            b == self.paint_differs(other),
    {
        self.visibility != other.visibility || self.opacity != other.opacity || self.z_order
            != other.z_order || self.background_color != other.background_color
            || self.translate_x != other.translate_x || self.translate_y != other.translate_y
    }
}

/// `a` with the declarations `ps` applied front to back.
pub open spec fn apply_all(a: Appearance, ps: Seq<Property>) -> Appearance
    decreases ps.len(),
{
    if ps.len() == 0 {
        a
    } else {
        apply_all(a, ps.drop_last()).with(ps.last())
    }
}

/// Which entities a rule speaks of: those of the given element kind, if it names
/// one, that carry every listed class and are in every listed state.
#[derive(Debug)]
pub struct Selector {
    pub element: Option<u32>,
    pub classes: Vec<u32>,
    pub pseudo: PseudoClasses,
}

impl Selector {
    /// Whether the selector speaks of an entity of the given element kind, classes
    /// and states.
    pub open spec fn matches(&self, element: Option<u32>, classes: Seq<u32>, pseudo: PseudoClasses) -> bool {
        &&& self.element is Some ==> self.element == element
        &&& forall|i: int| 0 <= i < self.classes@.len() ==> classes.contains(#[trigger] self.classes@[i])
        &&& pseudo.includes(self.pseudo)
    }

    /// Whether the selector speaks of an entity of the given element kind, classes
    /// and states.
    pub fn is_match(&self, element: Option<u32>, classes: &Vec<u32>, pseudo: PseudoClasses) -> (b: bool)
        ensures
            b == self.matches(element, classes@, pseudo),
    {
        match self.element {
            Some(wanted) => {
                match element {
                    Some(have) => {
                        if have != wanted {
                            return false;
                        }
                    },
                    None => {
                        return false;
                    },
                }
            },
            None => {},
        }
        if !pseudo.has_all(self.pseudo) {
            return false;
        }
        let mut i: usize = 0;
        while i < self.classes.len()
            invariant
                i <= self.classes.len(),
                forall|k: int| 0 <= k < i ==> classes@.contains(#[trigger] self.classes@[k]),
            decreases self.classes.len() - i,
        {
            let wanted: u32 = self.classes[i];
            let mut found: bool = false;
            let mut j: usize = 0;
            while j < classes.len()
                invariant
                    j <= classes.len(),
                    found ==> classes@.contains(wanted),
                    !found ==> forall|k: int| 0 <= k < j ==> classes@[k] != wanted,
                decreases classes.len() - j,
            {
                if classes[j] == wanted {
                    found = true;
                }
                j += 1;
            }
            if !found {
                assert(!classes@.contains(self.classes@[i as int]));
                return false;
            }
            i += 1;
        }
        true
    }
}

/// A selector and what it declares for the entities it matches.
#[derive(Debug)]
pub struct Rule {
    pub selector: Selector,
    pub properties: Vec<Property>,
}

/// What the rules make of an entity with the given element kind, classes and
/// states: starting from the defaults, every matching rule is applied in the order
/// of registration, so that of two rules that declare the same property the later
/// one wins.
pub open spec fn cascade(rules: Seq<Rule>, element: Option<u32>, classes: Seq<u32>, pseudo: PseudoClasses) -> Appearance
    decreases rules.len(),
{
    if rules.len() == 0 {
        Appearance::spec_new()
    } else {
        let before = cascade(rules.drop_last(), element, classes, pseudo);
        if rules.last().selector.matches(element, classes, pseudo) {
            apply_all(before, rules.last().properties@)
        } else {
            before
        }
    }
}

/// What the style holds for one entity.
#[derive(Debug)]
pub struct StyleRow {
    /// The element kind that selectors can name.
    pub element: Option<u32>,
    /// The classes that selectors can ask for.
    pub classes: Vec<u32>,
    /// Whether the entity is in the checked state.
    pub checked: bool,
    /// The declarations made for this entity itself; they win over every rule.
    pub inline: Vec<Property>,
    /// The outcome of the last style resolution.
    pub resolved: Appearance,
}

impl StyleRow {
    /// What resolution makes of this row under `rules`, the entity being in the
    /// states `pseudo`.
    pub open spec fn resolve(&self, rules: Seq<Rule>, pseudo: PseudoClasses) -> Appearance {
        apply_all(cascade(rules, self.element, self.classes@, pseudo), self.inline@)
    }
}

/// The style state: the rules in the order of their registration, what is declared
/// for and resolved of each entity, and the flags that say which phases of a frame
/// have work to do.
pub struct Style {
    rules: Vec<Rule>,
    rows: SparseSet<StyleRow>,
    default_font: String,
    /// Styles have to be resolved anew.
    needs_restyle: bool,
    /// Positions and sizes have to be computed anew.
    needs_relayout: bool,
    /// The windows have to be painted anew.
    needs_redraw: bool,
}

impl Style {
    /// The rows are kept consistently.
    pub closed spec fn wf(&self) -> bool {
        self.rows.wf()
    }

    /// The rules, first registered first.
    pub closed spec fn rules(&self) -> Seq<Rule> {
        self.rules@
    }

    /// Whether `e` has a row.
    pub closed spec fn contains(&self, e: Entity) -> bool {
        self.rows.contains(e)
    }

    /// The row of `e`, meaningful where `contains(e)`.
    pub closed spec fn row(&self, e: Entity) -> StyleRow {
        self.rows.value(e)
    }

    /// The resolved style of `e`; the defaults for an entity without a row.
    pub open spec fn resolved(&self, e: Entity) -> Appearance {
        if self.contains(e) {
            self.row(e).resolved
        } else {
            Appearance::spec_new()
        }
    }

    /// The name of the font that text is set in where nothing else is said.
    pub closed spec fn font(&self) -> Seq<char> {
        self.default_font@
    }

    /// The three flags as they stand: whether styles have to be resolved anew,
    /// whether positions and sizes have to be computed anew, and whether the windows
    /// have to be painted anew.
    pub closed spec fn flags(&self) -> (bool, bool, bool) {
        (self.needs_restyle, self.needs_relayout, self.needs_redraw)
    }

    /// `self` is `before` but for the flags.
    pub open spec fn same_but_flags(&self, before: &Style) -> bool {
        &&& self.wf() == before.wf()
        &&& self.rules() == before.rules()
        &&& self.font() == before.font()
        &&& forall|x: Entity| #[trigger] self.contains(x) == before.contains(x)
        &&& forall|x: Entity| self.row(x) == before.row(x)
    }

    /// Whether styles have to be resolved anew.
    pub fn needs_restyle(&self) -> (b: bool)
        ensures
            b == self.flags().0,
    {
        self.needs_restyle
    }

    /// Whether positions and sizes have to be computed anew.
    pub fn needs_relayout(&self) -> (b: bool)
        ensures
            b == self.flags().1,
    {
        self.needs_relayout
    }

    /// Whether the windows have to be painted anew.
    pub fn needs_redraw(&self) -> (b: bool)
        ensures
            b == self.flags().2,
    {
        self.needs_redraw
    }

    /// Says whether styles have to be resolved anew.
    pub fn set_needs_restyle(&mut self, value: bool)
        ensures
            final(self).flags() == (value, old(self).flags().1, old(self).flags().2),
            final(self).same_but_flags(old(self)),
    {
        self.needs_restyle = value;
    }

    /// Says whether positions and sizes have to be computed anew.
    pub fn set_needs_relayout(&mut self, value: bool)
        ensures
            final(self).flags() == (old(self).flags().0, value, old(self).flags().2),
            final(self).same_but_flags(old(self)),
    {
        self.needs_relayout = value;
    }

    /// Says whether the windows have to be painted anew.
    pub fn set_needs_redraw(&mut self, value: bool)
        ensures
            final(self).flags() == (old(self).flags().0, old(self).flags().1, value),
            final(self).same_but_flags(old(self)),
    {
        self.needs_redraw = value;
    }

    /// `self` has the rows of `before`, and every row but that of `e` is unchanged.
    pub open spec fn rows_changed_only(&self, before: &Style, e: Entity) -> bool {
        &&& forall|x: Entity| #[trigger] self.contains(x) == before.contains(x)
        &&& forall|x: Entity| x != e && before.contains(x) ==> self.row(x) == before.row(x)
    }

    /// Whether the rows are kept consistently. They are, unless the style was
    /// tampered with.
    pub fn check(&self) -> (b: bool)
        ensures
            b == self.wf(),
    {
        self.rows.check()
    }

    /// The entities that have a row, in the order in which the rows are kept.
    pub closed spec fn keys(&self) -> Seq<Entity> {
        self.rows.keys()
    }

    /// The entities that have a row are those that `keys` lists.
    pub proof fn lemma_keys(&self, e: Entity)
        requires
            self.wf(),
        ensures
            self.contains(e) == self.keys().contains(e),
    {
        self.rows.lemma_keys();
        if self.contains(e) {
            assert(self.keys()[self.rows.position(e)] == e);
        }
    }

    /// The number of rows.
    pub fn len(&self) -> (n: usize)
        ensures
            n == self.keys().len(),
    {
        self.rows.len()
    }

    /// The entity of the `k`-th row.
    pub fn key_at(&self, k: usize) -> (e: Entity)
        requires
            k < self.keys().len(),
        ensures
            e == self.keys()[k as int],
    {
        self.rows.key_at(k)
    }

    /// A style without rules and rows, with nothing asked for.
    pub fn new() -> (s: Self)
        ensures
            s.wf(),
            s.rules() == Seq::<Rule>::empty(),
            forall|e: Entity| !s.contains(e),
            s.flags() == (false, false, false),
            s.font() == Seq::<char>::empty(),
    {
        Style {
            rules: Vec::new(),
            rows: SparseSet::new(),
            default_font: String::new(),
            needs_restyle: false,
            needs_relayout: false,
            needs_redraw: false,
        }
    }

    /// Whether `entity` has a row.
    pub fn has(&self, entity: Entity) -> (b: bool)
        ensures
            b == self.contains(entity),
    {
        self.rows.contains_key(entity)
    }

    /// Gives `entity` an empty row, in place of whatever row its slot had, and asks
    /// for styles to be resolved anew.
    pub fn add(&mut self, entity: Entity) -> (r: Result<(), StorageError>)
        requires
            old(self).wf(),
        ensures
            final(self).wf(),
            final(self).rules() == old(self).rules(),
            final(self).font() == old(self).font(),
            r is Err <==> entity.index == u32::MAX,
            r is Err ==> *final(self) == *old(self),
            r is Ok ==> {
                &&& final(self).contains(entity)
                &&& final(self).row(entity).element is None
                &&& final(self).row(entity).classes@ == Seq::<u32>::empty()
                &&& final(self).row(entity).inline@ == Seq::<Property>::empty()
                &&& !final(self).row(entity).checked
                &&& final(self).row(entity).resolved == Appearance::spec_new()
                &&& forall|x: Entity|
                    final(self).contains(x) == (x == entity || (old(self).contains(x) && x.index
                        != entity.index))
                &&& forall|x: Entity|
                    old(self).contains(x) && x.index != entity.index ==> final(self).row(x) == old(self).row(x)
                &&& final(self).flags() == (true, old(self).flags().1, old(self).flags().2)
            },
    {
        let row = StyleRow {
            element: None,
            classes: Vec::new(),
            checked: false,
            inline: Vec::new(),
            resolved: Appearance::new(),
        };
        let r = self.rows.insert(entity, row);
        if r.is_ok() {
            self.needs_restyle = true;
        }
        r
    }

    /// Drops the row of `entity`.
    pub fn remove(&mut self, entity: Entity) -> (had_row: bool)
        requires
            old(self).wf(),
        ensures
            final(self).wf(),
            final(self).rules() == old(self).rules(),
            final(self).font() == old(self).font(),
            final(self).flags() == old(self).flags(),
            had_row == old(self).contains(entity),
            forall|x: Entity| #[trigger] final(self).contains(x) == (old(self).contains(x) && x != entity),
            forall|x: Entity|
                old(self).contains(x) && x != entity ==> final(self).row(x) == old(self).row(x),
    {
        self.rows.remove(entity).is_some()
    }

    /// Drops the rows of all of `entities`, the last listed first.
    pub fn remove_each(&mut self, entities: &Vec<Entity>)
        requires
            old(self).wf(),
        ensures
            final(self).wf(),
            final(self).rules() == old(self).rules(),
            final(self).font() == old(self).font(),
            final(self).flags() == old(self).flags(),
            forall|x: Entity|
                #[trigger] final(self).contains(x) == (old(self).contains(x) && !entities@.contains(
                    x,
                )),
            forall|x: Entity|
                #[trigger] final(self).contains(x) ==> final(self).row(x) == old(self).row(x),
    {
        self.rows.remove_each(entities);
    }

    /// Names the element kind of `entity` and asks for styles to be resolved anew.
    pub fn set_element(&mut self, entity: Entity, element: u32)
        requires
            old(self).wf(),
        ensures
            final(self).wf(),
            final(self).rules() == old(self).rules(),
            final(self).font() == old(self).font(),
            final(self).rows_changed_only(old(self), entity),
            old(self).contains(entity) ==> final(self).row(entity) == (StyleRow {
                element: Some(element),
                ..old(self).row(entity)
            }),
            final(self).flags() == (
                old(self).flags().0 || old(self).contains(entity),
                old(self).flags().1,
                old(self).flags().2,
            ),
    {
        match self.rows.get_mut(entity) {
            Some(row) => {
                row.element = Some(element);
                self.needs_restyle = true;
            },
            None => {},
        }
    }

    /// Adds a class to `entity` and asks for styles to be resolved anew.
    pub fn add_class(&mut self, entity: Entity, class: u32)
        requires
            old(self).wf(),
        ensures
            final(self).wf(),
            final(self).rules() == old(self).rules(),
            final(self).font() == old(self).font(),
            final(self).rows_changed_only(old(self), entity),
            old(self).contains(entity) ==> {
                &&& final(self).row(entity).classes@ == old(self).row(entity).classes@.push(class)
                &&& final(self).row(entity).element == old(self).row(entity).element
                &&& final(self).row(entity).checked == old(self).row(entity).checked
                &&& final(self).row(entity).inline == old(self).row(entity).inline
                &&& final(self).row(entity).resolved == old(self).row(entity).resolved
            },
            final(self).flags() == (
                old(self).flags().0 || old(self).contains(entity),
                old(self).flags().1,
                old(self).flags().2,
            ),
    {
        match self.rows.get_mut(entity) {
            Some(row) => {
                row.classes.push(class);
                self.needs_restyle = true;
            },
            None => {},
        }
    }

    /// Puts `entity` into or out of the checked state and asks for styles to be
    /// resolved anew.
    pub fn set_checked(&mut self, entity: Entity, checked: bool)
        requires
            old(self).wf(),
        ensures
            final(self).wf(),
            final(self).rules() == old(self).rules(),
            final(self).font() == old(self).font(),
            final(self).rows_changed_only(old(self), entity),
            old(self).contains(entity) ==> final(self).row(entity) == (StyleRow {
                checked,
                ..old(self).row(entity)
            }),
            final(self).flags() == (
                old(self).flags().0 || old(self).contains(entity),
                old(self).flags().1,
                old(self).flags().2,
            ),
    {
        match self.rows.get_mut(entity) {
            Some(row) => {
                row.checked = checked;
                self.needs_restyle = true;
            },
            None => {},
        }
    }

    /// Declares `property` for `entity` itself and asks for styles to be resolved
    /// anew. Such a declaration wins over every rule, and among the declarations of
    /// one entity the latest wins.
    pub fn set_property(&mut self, entity: Entity, property: Property)
        requires
            old(self).wf(),
        ensures
            final(self).wf(),
            final(self).rules() == old(self).rules(),
            final(self).font() == old(self).font(),
            final(self).rows_changed_only(old(self), entity),
            old(self).contains(entity) ==> {
                &&& final(self).row(entity).inline@ == old(self).row(entity).inline@.push(property)
                &&& final(self).row(entity).element == old(self).row(entity).element
                &&& final(self).row(entity).checked == old(self).row(entity).checked
                &&& final(self).row(entity).classes == old(self).row(entity).classes
                &&& final(self).row(entity).resolved == old(self).row(entity).resolved
            },
            final(self).flags() == (
                old(self).flags().0 || old(self).contains(entity),
                old(self).flags().1,
                old(self).flags().2,
            ),
    {
        match self.rows.get_mut(entity) {
            Some(row) => {
                row.inline.push(property);
                self.needs_restyle = true;
            },
            None => {},
        }
    }

    /// Registers `rule` behind the rules that are there and asks for styles to be
    /// resolved anew.
    pub fn add_rule(&mut self, rule: Rule)
        requires
            old(self).wf(),
        ensures
            final(self).wf(),
            final(self).rules() == old(self).rules().push(rule),
            final(self).font() == old(self).font(),
            forall|x: Entity| #[trigger] final(self).contains(x) == old(self).contains(x),
            forall|x: Entity| old(self).contains(x) ==> final(self).row(x) == old(self).row(x),
            final(self).flags() == (true, old(self).flags().1, old(self).flags().2),
    {
        self.rules.push(rule);
        self.needs_restyle = true;
    }

    /// Forgets every rule.
    pub fn remove_rules(&mut self)
        requires
            old(self).wf(),
        ensures
            final(self).wf(),
            final(self).rules() == Seq::<Rule>::empty(),
            final(self).font() == old(self).font(),
            forall|x: Entity| #[trigger] final(self).contains(x) == old(self).contains(x),
            forall|x: Entity| old(self).contains(x) ==> final(self).row(x) == old(self).row(x),
            final(self).flags() == old(self).flags(),
    {
        self.rules.clear();
    }

    /// Forgets what was resolved: every entity is back at the default appearance
    /// until styles are resolved again. What is declared for the entities stays.
    pub fn remove_all(&mut self)
        requires
            old(self).wf(),
        ensures
            final(self).wf(),
            final(self).rules() == old(self).rules(),
            final(self).font() == old(self).font(),
            final(self).flags() == old(self).flags(),
            forall|x: Entity| #[trigger] final(self).contains(x) == old(self).contains(x),
            forall|x: Entity|
                old(self).contains(x) ==> #[trigger] final(self).row(x) == (StyleRow {
                    resolved: Appearance::spec_new(),
                    ..old(self).row(x)
                }),
    {
        let ghost before = *self;
        let n: usize = self.rows.len();
        let mut k: usize = 0;
        proof {
            self.rows.lemma_keys();
        }
        while k < n
            invariant
                k <= n,
                n == before.rows.keys().len(),
                self.rows.wf(),
                before.rows.wf(),
                self.rows.keys() == before.rows.keys(),
                self.rules == before.rules,
                self.default_font == before.default_font,
                self.flags() == before.flags(),
                forall|x: Entity| #[trigger] self.rows.contains(x) == before.rows.contains(x),
                forall|x: Entity| self.rows.position(x) == before.rows.position(x),
                forall|x: Entity|
                    before.rows.contains(x) && before.rows.position(x) < k ==> #[trigger] self.rows.value(
                        x,
                    ) == (StyleRow { resolved: Appearance::spec_new(), ..before.rows.value(x) }),
                forall|x: Entity|
                    before.rows.contains(x) && before.rows.position(x) >= k ==> #[trigger] self.rows.value(
                        x,
                    ) == before.rows.value(x),
            decreases n - k,
        {
            let key = self.rows.key_at(k);
            proof {
                self.rows.lemma_keys();
                before.rows.lemma_keys();
            }
            match self.rows.get_mut(key) {
                Some(row) => {
                    row.resolved = Appearance::new();
                },
                None => {},
            }
            proof {
                assert forall|x: Entity|
                    before.rows.contains(x) && before.rows.position(x) < k + 1 implies #[trigger] self.rows.value(
                    x,
                ) == (StyleRow { resolved: Appearance::spec_new(), ..before.rows.value(x) }) by {
                    if x != key {
                        assert(before.rows.keys()[before.rows.position(x)] == x);
                        assert(before.rows.position(x) != k);
                    }
                }
                assert forall|x: Entity|
                    before.rows.contains(x) && before.rows.position(x) >= k + 1 implies #[trigger] self.rows.value(
                    x,
                ) == before.rows.value(x) by {
                    assert(x != key);
                }
            }
            k += 1;
        }
        proof {
            before.rows.lemma_keys();
        }
    }

    /// Replaces the rules by `rules`, forgets what was resolved, and asks for
    /// styles, layout and painting to be done anew.
    pub fn reload(&mut self, rules: Vec<Rule>)
        requires
            old(self).wf(),
        ensures
            final(self).wf(),
            final(self).rules() == rules@,
            final(self).font() == old(self).font(),
            final(self).flags() == (true, true, true),
            forall|x: Entity| #[trigger] final(self).contains(x) == old(self).contains(x),
            forall|x: Entity|
                old(self).contains(x) ==> #[trigger] final(self).row(x) == (StyleRow {
                    resolved: Appearance::spec_new(),
                    ..old(self).row(x)
                }),
    {
        self.remove_all();
        let ghost cleared = *self;
        self.rules = rules;
        self.needs_restyle = true;
        self.needs_relayout = true;
        self.needs_redraw = true;
        proof {
            assert forall|x: Entity| old(self).contains(x) implies #[trigger] self.row(x) == (StyleRow {
                resolved: Appearance::spec_new(),
                ..old(self).row(x)
            }) by {
                assert(cleared.row(x) == self.row(x));
            }
            assert forall|x: Entity| #[trigger] self.contains(x) == old(self).contains(x) by {
                assert(cleared.contains(x) == self.contains(x));
            }
        }
    }

    /// The resolved style of `entity`, or the defaults.
    pub fn get_resolved(&self, entity: Entity) -> (a: Appearance)
        ensures
            a == self.resolved(entity),
    {
        match self.rows.get(entity) {
            Some(row) => row.resolved,
            None => Appearance::new(),
        }
    }

    /// Whether `entity` is in the checked state.
    pub fn is_checked(&self, entity: Entity) -> (b: bool)
        ensures
            b == (self.contains(entity) && self.row(entity).checked),
    {
        match self.rows.get(entity) {
            Some(row) => row.checked,
            None => false,
        }
    }

    /// Names the font that text is set in where nothing else is said.
    pub fn set_default_font(&mut self, name: &str)
        ensures
            final(self).font() == name@,
            final(self).rules() == old(self).rules(),
            final(self).flags() == old(self).flags(),
            final(self).wf() == old(self).wf(),
            forall|x: Entity| #[trigger] final(self).contains(x) == old(self).contains(x),
            forall|x: Entity| final(self).row(x) == old(self).row(x),
    {
        self.default_font = name.to_owned();
    }

    /// The name of the font that text is set in where nothing else is said.
    pub fn get_default_font(&self) -> (name: &String)
        ensures
            name@ == self.font(),
    {
        &self.default_font
    }

    /// What the rules and the entity's own declarations make of the row, by the
    /// cascade.
    fn compute(&self, row: &StyleRow, pseudo: PseudoClasses) -> (a: Appearance)
        ensures
            a == row.resolve(self.rules(), pseudo),
    {
        let mut acc: Appearance = Appearance::new();
        let mut i: usize = 0;
        assert(self.rules@.take(0) =~= Seq::<Rule>::empty());
        while i < self.rules.len()
            invariant
                i <= self.rules.len(),
                acc == cascade(self.rules@.take(i as int), row.element, row.classes@, pseudo),
            decreases self.rules.len() - i,
        {
            let rule = &self.rules[i];
            proof {
                assert(self.rules@.take(i + 1).drop_last() =~= self.rules@.take(i as int));
                assert(self.rules@.take(i + 1).last() == self.rules@[i as int]);
            }
            if rule.selector.is_match(row.element, &row.classes, pseudo) {
                let ghost start = acc;
                let mut j: usize = 0;
                assert(rule.properties@.take(0) =~= Seq::<Property>::empty());
                while j < rule.properties.len()
                    invariant
                        j <= rule.properties.len(),
                        acc == apply_all(start, rule.properties@.take(j as int)),
                    decreases rule.properties.len() - j,
                {
                    proof {
                        assert(rule.properties@.take(j + 1).drop_last() =~= rule.properties@.take(
                            j as int,
                        ));
                        assert(rule.properties@.take(j + 1).last() == rule.properties@[j as int]);
                    }
                    acc = acc.with_property(rule.properties[j]);
                    j += 1;
                }
                assert(rule.properties@.take(j as int) =~= rule.properties@);
            }
            i += 1;
        }
        assert(self.rules@.take(i as int) =~= self.rules@);
        let ghost base = acc;
        let mut j: usize = 0;
        assert(row.inline@.take(0) =~= Seq::<Property>::empty());
        while j < row.inline.len()
            invariant
                j <= row.inline.len(),
                acc == apply_all(base, row.inline@.take(j as int)),
            decreases row.inline.len() - j,
        {
            proof {
                assert(row.inline@.take(j + 1).drop_last() =~= row.inline@.take(j as int));
                assert(row.inline@.take(j + 1).last() == row.inline@[j as int]);
            }
            acc = acc.with_property(row.inline[j]);
            j += 1;
        }
        assert(row.inline@.take(j as int) =~= row.inline@);
        acc
    }

    /// Resolves the style of one entity anew, the entity being in the states
    /// `pseudo` (`checked` is taken from the entity's row). Returns whether the
    /// outcome differs from the last one in something that decides placement, and
    /// whether it differs in something that only decides painting.
    pub fn restyle(&mut self, entity: Entity, pseudo: PseudoClasses) -> (changed: (bool, bool))
        requires
            old(self).wf(),
        ensures
            final(self).wf(),
            final(self).rules() == old(self).rules(),
            final(self).font() == old(self).font(),
            final(self).flags() == old(self).flags(),
            final(self).rows_changed_only(old(self), entity),
            old(self).contains(entity) ==> final(self).row(entity) == (StyleRow {
                resolved: old(self).row(entity).resolve(
                    old(self).rules(),
                    PseudoClasses { checked: old(self).row(entity).checked, ..pseudo },
                ),
                ..old(self).row(entity)
            }),
            changed.0 == final(self).resolved(entity).geometry_differs(old(self).resolved(entity)),
            changed.1 == final(self).resolved(entity).paint_differs(old(self).resolved(entity)),
    {
        let fresh: Appearance = match self.rows.get(entity) {
            Some(row) => {
                let states = PseudoClasses {
                    hover: pseudo.hover,
                    active: pseudo.active,
                    focus: pseudo.focus,
                    checked: row.checked,
                };
                self.compute(row, states)
            },
            None => {
                return (false, false);
            },
        };
        match self.rows.get_mut(entity) {
            Some(row) => {
                let last: Appearance = row.resolved;
                row.resolved = fresh;
                (fresh.is_geometry_change(last), fresh.is_paint_change(last))
            },
            None => (false, false),
        }
    }
}

} // verus!
