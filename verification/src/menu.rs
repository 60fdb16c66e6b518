//! Entry selection and section assembly: picks the single feed entry whose
//! id carries the reference date, then walks its content subtree, grouping
//! list items under their preceding headings into sections.

use crate::etree::{elem_children_model, ref_models, shallow_text, ETElement, ElemModel};
use crate::meal::{meal_of, Meal, MealModel};
use crate::text::{collapse_ws, collapse_ws_str, str_eq};
use vstd::prelude::*;
use vstd::string::StringExecFns;

verus! {

/// The characters of the `title` tag.
pub open spec fn tag_title() -> Seq<char> {
    seq!['t', 'i', 't', 'l', 'e']
}

/// The characters of the `entry` tag.
pub open spec fn tag_entry() -> Seq<char> {
    seq!['e', 'n', 't', 'r', 'y']
}

/// The characters of the `id` tag.
pub open spec fn tag_id() -> Seq<char> {
    seq!['i', 'd']
}

/// The characters of the `content` tag.
pub open spec fn tag_content() -> Seq<char> {
    seq!['c', 'o', 'n', 't', 'e', 'n', 't']
}

/// The characters of the heading tag.
pub open spec fn tag_p() -> Seq<char> {
    seq!['p']
}

/// The characters of the list tag.
pub open spec fn tag_ul() -> Seq<char> {
    seq!['u', 'l']
}

/// The characters of the list item tag.
pub open spec fn tag_li() -> Seq<char> {
    seq!['l', 'i']
}

/// The placeholder for a missing title or heading.
pub open spec fn unknown_title() -> Seq<char> {
    seq!['U', 'n', 'k', 'o', 'w', 'n']
}

/// The first element of `cs` with the given name, in document order.
pub open spec fn first_named(cs: Seq<ElemModel>, name: Seq<char>) -> Option<ElemModel>
    decreases cs.len(),
{
    if cs.len() == 0 {
        None
    } else if cs[0].name == name {
        Some(cs[0])
    } else {
        first_named(cs.drop_first(), name)
    }
}

/// The first element child of `e` with the given name.
pub open spec fn first_child_named(e: ElemModel, name: Seq<char>) -> Option<ElemModel> {
    first_named(elem_children_model(e.children), name)
}

/// Whether an entry id's text carries the reference date as its trailing
/// path segment: the text is the date itself, or ends with `/` followed by
/// the date.
pub open spec fn id_matches(s: Seq<char>, refdate: Seq<char>) -> bool {
    s == refdate || (s.len() > refdate.len() && s.subrange(
        s.len() - refdate.len() - 1,
        s.len() as int,
    ) == seq!['/'] + refdate)
}

/// Whether this feed child is an entry whose first `id` child's shallow
/// text carries the reference date.
pub open spec fn entry_matches(e: ElemModel, refdate: Seq<char>) -> bool {
    e.name == tag_entry() && match first_child_named(e, tag_id()) {
        Some(id) => id_matches(shallow_text(id), refdate),
        None => false,
    }
}

/// The first of `cs` that is an entry matching the reference date; later
/// matching entries are never considered.
pub open spec fn select_from(cs: Seq<ElemModel>, refdate: Seq<char>) -> Option<ElemModel>
    decreases cs.len(),
{
    if cs.len() == 0 {
        None
    } else if entry_matches(cs[0], refdate) {
        Some(cs[0])
    } else {
        select_from(cs.drop_first(), refdate)
    }
}

/// The entry of the feed selected for the reference date.
pub open spec fn selected_entry(feed: ElemModel, refdate: Seq<char>) -> Option<ElemModel> {
    select_from(elem_children_model(feed.children), refdate)
}

/// The menu's title: the whitespace-collapsed shallow text of the feed's
/// first `title` child, or the placeholder when there is none.
pub open spec fn menu_title(feed: ElemModel) -> Seq<char> {
    match first_child_named(feed, tag_title()) {
        Some(t) => collapse_ws(shallow_text(t)),
        None => unknown_title(),
    }
}

/// A heading's title: the shallow text of its first element child, or the
/// placeholder when it has none.
pub open spec fn heading_title(p: ElemModel) -> Seq<char> {
    let cs = elem_children_model(p.children);
    if cs.len() == 0 {
        unknown_title()
    } else {
        shallow_text(cs[0])
    }
}

/// One record per `li` element among `cs`, in order, extracted from its
/// shallow text.
pub open spec fn list_meals(cs: Seq<ElemModel>) -> Seq<MealModel>
    decreases cs.len(),
{
    if cs.len() == 0 {
        Seq::empty()
    } else {
        let rest = list_meals(cs.drop_last());
        if cs.last().name == tag_li() {
            rest.push(meal_of(shallow_text(cs.last())))
        } else {
            rest
        }
    }
}

/// A defect that aborts section assembly for the current document.
#[derive(Clone, Copy, PartialEq, Eq, Structural, Debug)]
pub enum AssembleError {
    /// A list arrived before any heading: its items have no section to
    /// belong to.
    OrphanListError,
}

/// Mathematical model of a section.
pub struct SectionModel {
    pub title: Seq<char>,
    pub meals: Seq<MealModel>,
}

/// Walks the item stream in order: each heading starts a new section, each
/// list appends its items' records to the section the latest heading
/// started, a list before any heading is a fatal defect, and any other tag
/// is ignored.
pub open spec fn assemble_items(items: Seq<ElemModel>) -> Result<Seq<SectionModel>, AssembleError>
    decreases items.len(),
{
    if items.len() == 0 {
        Ok(Seq::empty())
    } else {
        match assemble_items(items.drop_last()) {
            Err(e) => Err(e),
            Ok(secs) => {
                let it = items.last();
                if it.name == tag_p() {
                    Ok(
                        secs.push(
                            SectionModel {
                                title: collapse_ws(heading_title(it)),
                                meals: Seq::empty(),
                            },
                        ),
                    )
                } else if it.name == tag_ul() {
                    if secs.len() == 0 {
                        Err(AssembleError::OrphanListError)
                    } else {
                        let last = secs[secs.len() - 1];
                        Ok(
                            secs.update(
                                secs.len() - 1,
                                SectionModel {
                                    title: last.title,
                                    meals: last.meals + list_meals(
                                        elem_children_model(it.children),
                                    ),
                                },
                            ),
                        )
                    }
                } else {
                    Ok(secs)
                }
            },
        }
    }
}

/// The sections of a selected entry: those assembled from the element
/// children of the first element child of the entry's `content` child; no
/// sections at all when the `content` child or its wrapper is missing.
pub open spec fn entry_sections(entry: ElemModel) -> Result<Seq<SectionModel>, AssembleError> {
    match first_child_named(entry, tag_content()) {
        None => Ok(Seq::empty()),
        Some(content) => {
            let wrappers = elem_children_model(content.children);
            if wrappers.len() == 0 {
                Ok(Seq::empty())
            } else {
                assemble_items(elem_children_model(wrappers[0].children))
            }
        },
    }
}

/// Mathematical model of a menu.
pub struct MenuModel {
    pub title: Seq<char>,
    pub date: Seq<char>,
    pub sections: Seq<SectionModel>,
}

/// The menu extracted from a feed for a reference date: its title, the
/// given display label for the date, and the sections of the selected
/// entry; no sections when no entry matches.
pub open spec fn menu_model(feed: ElemModel, refdate: Seq<char>, label: Seq<char>) -> Result<
    MenuModel,
    AssembleError,
> {
    let secs = match selected_entry(feed, refdate) {
        None => Ok(Seq::empty()),
        Some(e) => entry_sections(e),
    };
    match secs {
        Ok(ss) => Ok(MenuModel { title: menu_title(feed), date: label, sections: ss }),
        Err(e) => Err(e),
    }
}

/// The models of a vector of meals, in order.
pub open spec fn meals_model(v: Seq<Meal>) -> Seq<MealModel> {
    Seq::new(v.len(), |i: int| v[i]@)
}

/// The models of a vector of sections, in order.
pub open spec fn sections_model(v: Seq<Section>) -> Seq<SectionModel> {
    Seq::new(v.len(), |i: int| v[i]@)
}

/// One named section of the menu: a title and the records of its items, in
/// document order.
pub struct Section {
    pub title: String,
    pub meals: Vec<Meal>,
}

impl View for Section {
    type V = SectionModel;

    open spec fn view(&self) -> SectionModel {
        SectionModel { title: self.title@, meals: meals_model(self.meals@) }
    }
}

impl Section {
    /// A fresh section: the given title, whitespace-collapsed, and no items
    /// yet.
    pub fn new(title: &str) -> (s: Section)
        ensures
            s@.title == collapse_ws(title@),
            s@.meals =~= Seq::<MealModel>::empty(),
    {
        Section { title: collapse_ws_str(title), meals: Vec::new() }
    }
}

/// The first of the borrowed elements with the given name.
fn find_first_named<'a>(children: &Vec<&'a ETElement>, name: &str) -> (r: Option<&'a ETElement>)
    ensures
        match r {
            Some(e) => first_named(ref_models(children@), name@) == Some(e@),
            None => first_named(ref_models(children@), name@) is None,
        },
{
    let ghost cs = ref_models(children@);
    let mut i: usize = 0;
    proof {
        assert(cs.skip(0) =~= cs);
    }
    while i < children.len()
        invariant
            i <= cs.len(),
            cs.len() == children@.len(),
            first_named(cs, name@) == first_named(cs.skip(i as int), name@),
        decreases cs.len() - i,
    {
        proof {
            assert(cs.skip(i as int)[0] == cs[i as int]);
            assert(cs.skip(i as int).drop_first() =~= cs.skip(i as int + 1));
        }
        let e = children[i];
        if str_eq(e.name.as_str(), name) {
            return Some(e);
        }
        i = i + 1;
    }
    proof {
        assert(cs.skip(cs.len() as int) =~= Seq::<ElemModel>::empty());
    }
    None
}

/// Whether the element has a direct element child with the given name.
pub fn has_child_named(e: &ETElement, name: &str) -> (b: bool)
    ensures
        b == (first_child_named(e@, name@) is Some),
{
    let children = e.get_children_ref();
    find_first_named(&children, name).is_some()
}

/// Whether the id text `s` carries `refdate` as its trailing path segment.
fn id_matches_exec(s: &str, refdate: &str) -> (b: bool)
    ensures
        b == id_matches(s@, refdate@),
{
    let n = s.unicode_len();
    let m = refdate.unicode_len();
    if n == m {
        str_eq(s, refdate)
    } else if n > m {
        if !(s.get_char(n - m - 1) == '/') {
            proof {
                assert(s@.subrange(n - m - 1, n as int)[0] == s@[n - m - 1]);
                assert((seq!['/'] + refdate@)[0] == '/');
            }
            false
        } else {
            let mut k: usize = 0;
            while k < m
                invariant
                    k <= m,
                    n == s@.len(),
                    m == refdate@.len(),
                    n > m,
                    s@[n - m - 1] == '/',
                    forall|t: int| 0 <= t < k ==> s@[n - m + t] == refdate@[t],
                decreases m - k,
            {
                if !(s.get_char(n - m + k) == refdate.get_char(k)) {
                    proof {
                        assert(s@.subrange(n - m - 1, n as int)[1 + k] == s@[n - m + k]);
                        assert((seq!['/'] + refdate@)[1 + k] == refdate@[k as int]);
                    }
                    return false;
                }
                k = k + 1;
            }
            proof {
                assert(s@.subrange(n - m - 1, n as int) =~= seq!['/'] + refdate@);
            }
            true
        }
    } else {
        false
    }
}

proof fn lemma_assemble_err(items: Seq<ElemModel>, i: int)
    requires
        0 <= i <= items.len(),
        assemble_items(items.subrange(0, i)) is Err,
    ensures
        assemble_items(items) == assemble_items(items.subrange(0, i)),
    decreases items.len() - i,
{
    if i < items.len() {
        assert(items.subrange(0, i + 1).drop_last() =~= items.subrange(0, i));
        lemma_assemble_err(items, i + 1);
    } else {
        assert(items.subrange(0, items.len() as int) =~= items);
    }
}

/// Walks the item stream, starting a section at each heading and filling
/// the latest section from each list, exactly as [`assemble_items`] says.
fn assemble_exec(items: &Vec<&ETElement>) -> (r: Result<Vec<Section>, AssembleError>)
    ensures
        match r {
            Ok(secs) => assemble_items(ref_models(items@)) == Ok::<_, AssembleError>(
                sections_model(secs@),
            ),
            Err(e) => assemble_items(ref_models(items@)) == Err::<Seq<SectionModel>, _>(e),
        },
{
    proof {
        reveal_strlit("p");
        reveal_strlit("ul");
        reveal_strlit("li");
        reveal_strlit("Unkown");
        assert("p"@ =~= tag_p());
        assert("ul"@ =~= tag_ul());
        assert("li"@ =~= tag_li());
        assert("Unkown"@ =~= unknown_title());
    }
    let ghost ms = ref_models(items@);
    let mut sections: Vec<Section> = Vec::new();
    let mut i: usize = 0;
    proof {
        assert(ms.subrange(0, 0) =~= Seq::<ElemModel>::empty());
        assert(sections_model(sections@) =~= Seq::<SectionModel>::empty());
    }
    while i < items.len()
        invariant
            i <= ms.len(),
            ms.len() == items@.len(),
            assemble_items(ms.subrange(0, i as int)) == Ok::<_, AssembleError>(
                sections_model(sections@),
            ),
        decreases ms.len() - i,
    {
        proof {
            let pre = ms.subrange(0, i as int + 1);
            assert(pre.drop_last() =~= ms.subrange(0, i as int));
            assert(pre.last() == ms[i as int]);
        }
        let it = items[i];
        if str_eq(it.name.as_str(), "p") {
            let heading_children = it.get_children_ref();
            let sec_title: String = if heading_children.len() > 0 {
                proof {
                    assert(ref_models(heading_children@)[0] == elem_children_model(
                        it@.children,
                    )[0]);
                }
                heading_children[0].get_text()
            } else {
                String::from_str("Unkown")
            };
            let ghost old_sections = sections@;
            sections.push(Section::new(sec_title.as_str()));
            proof {
                assert(sections_model(sections@) =~= sections_model(old_sections).push(
                    sections@.last()@,
                ));
            }
        } else if str_eq(it.name.as_str(), "ul") {
            if sections.len() == 0 {
                proof {
                    lemma_assemble_err(ms, i as int + 1);
                }
                return Err(AssembleError::OrphanListError);
            }
            let ghost old_sections = sections@;
            let mut sec = sections.pop().unwrap();
            let ghost old_title = sec.title@;
            let ghost old_meals = sec.meals@;
            let lis = it.get_children_ref();
            let ghost lcs = elem_children_model(it@.children);
            let mut k: usize = 0;
            proof {
                assert(lcs.subrange(0, 0) =~= Seq::<ElemModel>::empty());
                assert(meals_model(sec.meals@) =~= meals_model(old_meals) + list_meals(
                    lcs.subrange(0, 0),
                ));
            }
            while k < lis.len()
                invariant
                    k <= lcs.len(),
                    lcs.len() == lis@.len(),
                    sec.title@ == old_title,
                    meals_model(sec.meals@) == meals_model(old_meals) + list_meals(
                        lcs.subrange(0, k as int),
                    ),
                decreases lcs.len() - k,
            {
                proof {
                    let pre = lcs.subrange(0, k as int + 1);
                    assert(pre.drop_last() =~= lcs.subrange(0, k as int));
                    assert(pre.last() == lcs[k as int]);
                    assert(ref_models(lis@)[k as int] == lcs[k as int]);
                }
                let li = lis[k];
                if str_eq(li.name.as_str(), "li") {
                    let t = li.get_text();
                    let ghost previous_meals = sec.meals@;
                    sec.meals.push(Meal::new(t.as_str()));
                    proof {
                        assert(meals_model(sec.meals@) =~= meals_model(previous_meals).push(
                            sec.meals@.last()@,
                        ));
                        assert(meals_model(old_meals) + list_meals(
                            lcs.subrange(0, k as int + 1),
                        ) =~= (meals_model(old_meals) + list_meals(lcs.subrange(0, k as int))).push(
                            meal_of(shallow_text(lcs[k as int])),
                        ));
                    }
                } else {
                    proof {
                        assert(lcs.subrange(0, k as int + 1) =~= lcs.subrange(0, k as int).push(
                            lcs[k as int],
                        ));
                    }
                }
                k = k + 1;
            }
            proof {
                assert(lcs.subrange(0, lcs.len() as int) =~= lcs);
            }
            sections.push(sec);
            proof {
                let secs0 = sections_model(old_sections);
                let updated = SectionModel {
                    title: secs0[secs0.len() - 1].title,
                    meals: secs0[secs0.len() - 1].meals + list_meals(lcs),
                };
                assert(sections_model(sections@) =~= secs0.update(secs0.len() - 1, updated));
            }
        } else {
        }
        i = i + 1;
    }
    proof {
        assert(ms.subrange(0, ms.len() as int) =~= ms);
    }
    Ok(sections)
}

/// The extracted menu: a title, a display label for the reference date, and
/// the ordered sections of the selected entry.
pub struct Menu {
    pub title: String,
    pub date: String,
    pub sections: Vec<Section>,
}

impl View for Menu {
    type V = MenuModel;

    open spec fn view(&self) -> MenuModel {
        MenuModel { title: self.title@, date: self.date@, sections: sections_model(self.sections@) }
    }
}

impl Menu {
    /// Extracts the menu of the reference date from a built feed tree,
    /// exactly as [`menu_model`] says: the feed's collapsed title (or its
    /// placeholder), the given display label for the date, and the sections
    /// assembled from the first entry whose id carries the reference date.
    /// Fails only when that entry's item stream holds a list before any
    /// heading.
    pub fn from_feed(feed: &ETElement, reference_date: &str, date_label: &str) -> (r: Result<
        Menu,
        AssembleError,
    >)
        ensures
            match r {
                Ok(menu) => menu_model(feed@, reference_date@, date_label@) == Ok::<
                    _,
                    AssembleError,
                >(menu@),
                Err(e) => menu_model(feed@, reference_date@, date_label@) == Err::<MenuModel, _>(e),
            },
    {
        proof {
            reveal_strlit("title");
            reveal_strlit("entry");
            reveal_strlit("id");
            reveal_strlit("content");
            reveal_strlit("Unkown");
            assert("title"@ =~= tag_title());
            assert("entry"@ =~= tag_entry());
            assert("id"@ =~= tag_id());
            assert("content"@ =~= tag_content());
            assert("Unkown"@ =~= unknown_title());
        }
        let feed_children = feed.get_children_ref();
        let ghost cs = elem_children_model(feed@.children);
        let title: String = match find_first_named(&feed_children, "title") {
            Some(t) => collapse_ws_str(t.get_text().as_str()),
            None => String::from_str("Unkown"),
        };
        let mut selected: Option<&ETElement> = None;
        let mut i: usize = 0;
        proof {
            assert(cs.skip(0) =~= cs);
        }
        while i < feed_children.len() && selected.is_none()
            invariant
                i <= cs.len(),
                cs.len() == feed_children@.len(),
                match selected {
                    Some(e) => select_from(cs, reference_date@) == Some(e@),
                    None => select_from(cs, reference_date@) == select_from(
                        cs.skip(i as int),
                        reference_date@,
                    ),
                },
            decreases cs.len() - i,
        {
            proof {
                assert(cs.skip(i as int)[0] == cs[i as int]);
                assert(cs.skip(i as int).drop_first() =~= cs.skip(i as int + 1));
            }
            let e = feed_children[i];
            if str_eq(e.name.as_str(), "entry") {
                let entry_children = e.get_children_ref();
                match find_first_named(&entry_children, "id") {
                    Some(id) => {
                        let id_text = id.get_text();
                        if id_matches_exec(id_text.as_str(), reference_date) {
                            selected = Some(e);
                        }
                    },
                    None => {},
                }
            }
            i = i + 1;
        }
        proof {
            if i == cs.len() && selected is None {
                assert(cs.skip(cs.len() as int) =~= Seq::<ElemModel>::empty());
            }
        }
        let assembled: Result<Vec<Section>, AssembleError> = match selected {
            None => Ok(Vec::new()),
            Some(entry) => {
                let entry_children = entry.get_children_ref();
                match find_first_named(&entry_children, "content") {
                    None => Ok(Vec::new()),
                    Some(content) => {
                        let wrappers = content.get_children_ref();
                        if wrappers.len() == 0 {
                            Ok(Vec::new())
                        } else {
                            proof {
                                assert(ref_models(wrappers@)[0] == elem_children_model(
                                    content@.children,
                                )[0]);
                            }
                            let items = wrappers[0].get_children_ref();
                            assemble_exec(&items)
                        }
                    },
                }
            },
        };
        match assembled {
            Err(e) => Err(e),
            Ok(sections) => {
                proof {
                    if sections@.len() == 0 {
                        assert(sections_model(sections@) =~= Seq::<SectionModel>::empty());
                    }
                }
                Ok(Menu { title, date: String::from_str(date_label), sections })
            },
        }
    }
}

} // verus!
