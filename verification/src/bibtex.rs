//! Export of catalog records as BibTeX entries.

use vstd::prelude::*;
use vstd::string::*;
use crate::catalog::Catalog;
use crate::ranking::record_views;
use crate::resource::{copy_opt_text, date_time_text, entry_type_of, name_texts, name_views, names_as_text, opt_text, original_digest, Name, NameView, Resource, ResourceView};
use crate::table::Table;
use crate::text::{join, join_text};

verus! {

/// BibTeX entry types.
#[derive(Debug, Clone, Copy, Hash, PartialEq, Eq, Structural)]
pub enum BibtexType {
    Article,
    Book,
    Manual,
    Miscellaneous,
    Online,
    Patent,
    Report,
    Software,
    TechReport,
}

/// The lower-case name under which an entry type is written.
pub open spec fn bibtex_type_name(t: BibtexType) -> Seq<char> {
    match t {
        BibtexType::Article => "article"@,
        BibtexType::Book => "book"@,
        BibtexType::Manual => "manual"@,
        BibtexType::Miscellaneous => "miscellaneous"@,
        BibtexType::Online => "online"@,
        BibtexType::Patent => "patent"@,
        BibtexType::Report => "report"@,
        BibtexType::Software => "software"@,
        BibtexType::TechReport => "techreport"@,
    }
}

impl BibtexType {
    /// The lower-case name of the entry type.
    pub fn name(&self) -> (name: &'static str)
        ensures
            name@ == bibtex_type_name(*self),
    {
        match self {
            BibtexType::Article => "article",
            BibtexType::Book => "book",
            BibtexType::Manual => "manual",
            BibtexType::Miscellaneous => "miscellaneous",
            BibtexType::Online => "online",
            BibtexType::Patent => "patent",
            BibtexType::Report => "report",
            BibtexType::Software => "software",
            BibtexType::TechReport => "techreport",
        }
    }
}

/// One line of a BibTeX entry: the field name behind four spaces, and its
/// value between braces. A field without a value has no line.
pub open spec fn field_line(field: Seq<char>, value: Option<Seq<char>>) -> Seq<char> {
    match value {
        Some(v) => "    "@ + field + "={"@ + v + "},\n"@,
        None => Seq::<char>::empty(),
    }
}

/// The line of a field that holds names: the names with ` and ` between
/// them. A missing or empty list has no line.
pub open spec fn names_line(field: Seq<char>, names: Option<Seq<NameView>>) -> Seq<char> {
    match names {
        Some(list) => if list.len() > 0 {
            field_line(field, Some(join_text(name_texts(list), " and "@)))
        } else {
            Seq::<char>::empty()
        },
        None => Seq::<char>::empty(),
    }
}

/// The BibTeX entry of a record of the entry type `entry_type`, kept in the
/// directory `resources_path`: the entry is named by the digest under which
/// the record was made, and it points to the file of that name.
pub open spec fn entry_text(r: ResourceView, entry_type: BibtexType, resources_path: Seq<char>) -> Seq<
    char,
> {
    "@"@ + bibtex_type_name(entry_type) + "{"@ + original_digest(r) + ",\n"@ + field_line(
        "title"@,
        Some(r.title),
    ) + field_line("subtitle"@, r.subtitle) + names_line("author"@, r.author) + names_line(
        "editor"@,
        r.editor,
    ) + field_line(
        "date"@,
        match r.date {
            Some(d) => Some(date_time_text(d)),
            None => None,
        },
    ) + field_line("edition"@, r.edition) + field_line("version"@, r.version) + field_line(
        "publisher"@,
        r.publisher,
    ) + field_line("organization"@, r.organization) + field_line("institution"@, r.organization)
        + field_line("file"@, Some(resources_path + "/"@ + original_digest(r))) + "}\n"@
}

/// The BibTeX entry of a record under the content types of a catalog; a
/// record whose content type has no entry type there has none.
pub open spec fn bibtex_of(
    r: ResourceView,
    names: Seq<Seq<char>>,
    types: Seq<BibtexType>,
    resources_path: Seq<char>,
) -> Seq<char> {
    match entry_type_of(r, names, types) {
        Some(t) => entry_text(r, t, resources_path),
        None => Seq::<char>::empty(),
    }
}

/// The BibTeX entries of the records, one after the other.
pub open spec fn bibliography(
    records: Seq<ResourceView>,
    names: Seq<Seq<char>>,
    types: Seq<BibtexType>,
    resources_path: Seq<char>,
) -> Seq<char>
    decreases records.len(),
{
    if records.len() == 0 {
        Seq::<char>::empty()
    } else {
        bibliography(records.drop_last(), names, types, resources_path) + bibtex_of(
            records.last(),
            names,
            types,
            resources_path,
        )
    }
}

/// Serialize one field of a BibTeX entry.
pub fn bibtex_serialize_field(field: &str, value: Option<String>) -> (line: String)
    ensures
        line@ == field_line(field@, opt_text(value)),
{
    match value {
        Some(v) => {
            let mut line = "    ".to_owned();
            line.append(field);
            line.append("={");
            line.append(v.as_str());
            line.append("},\n");
            line
        },
        None => String::new(),
    }
}

/// Serialize a list of names into a BibTeX format.
pub fn bibtex_serialize_names(field: &str, names: Option<Vec<Name>>) -> (line: String)
    ensures
        line@ == names_line(
            field@,
            match names {
                Some(list) => Some(name_views(list@)),
                None => None,
            },
        ),
{
    match names {
        Some(list) => {
            if list.len() > 0 {
                let parts = names_as_text(&list);
                bibtex_serialize_field(field, Some(join(&parts, " and ")))
            } else {
                String::new()
            }
        },
        None => String::new(),
    }
}

/// The line of a field that holds names, the list only borrowed.
fn names_field(field: &str, names: &Option<Vec<Name>>) -> (line: String)
    ensures
        line@ == names_line(
            field@,
            match *names {
                Some(list) => Some(name_views(list@)),
                None => None,
            },
        ),
{
    match names {
        Some(list) => {
            if list.len() > 0 {
                let parts = names_as_text(list);
                bibtex_serialize_field(field, Some(join(&parts, " and ")))
            } else {
                String::new()
            }
        },
        None => String::new(),
    }
}

impl Resource {
    /// Serialized BibTeX entry of the record, which is empty where the
    /// record's content type has no entry type in `content_types`.
    pub fn serialize_bibtex(&self, content_types: &Table<BibtexType>, resources_path: &str) -> (entry:
        String)
        requires
            self.wf(),
            content_types.wf(),
        ensures
            entry@ == bibtex_of(self@, content_types.keys(), content_types.values(), resources_path@),
    {
        let mut entry = String::new();
        match self.bibtex_type(content_types) {
            Some(t) => {
                let original = self.original_digest();
                entry.append("@");
                entry.append(t.name());
                entry.append("{");
                entry.append(original);
                entry.append(",\n");
                entry.append(bibtex_serialize_field("title", Some(self.title.clone())).as_str());
                entry.append(
                    bibtex_serialize_field("subtitle", copy_opt_text(&self.subtitle)).as_str(),
                );
                entry.append(names_field("author", &self.author).as_str());
                entry.append(names_field("editor", &self.editor).as_str());
                entry.append(
                    bibtex_serialize_field(
                        "date",
                        match &self.date {
                            Some(d) => Some(d.text()),
                            None => None,
                        },
                    ).as_str(),
                );
                entry.append(bibtex_serialize_field("edition", copy_opt_text(&self.edition)).as_str());
                entry.append(bibtex_serialize_field("version", copy_opt_text(&self.version)).as_str());
                entry.append(
                    bibtex_serialize_field("publisher", copy_opt_text(&self.publisher)).as_str(),
                );
                entry.append(
                    bibtex_serialize_field("organization", copy_opt_text(&self.organization)).as_str(),
                );
                entry.append(
                    bibtex_serialize_field("institution", copy_opt_text(&self.organization)).as_str(),
                );
                let mut file = resources_path.to_owned();
                file.append("/");
                file.append(original);
                entry.append(bibtex_serialize_field("file", Some(file)).as_str());
                entry.append("}\n");
                entry
            },
            None => entry,
        }
    }
}

/// Generate BibTeX entries for cataloged resources: the entries of all
/// records of the catalog, in its order, as one text.
pub fn librarian_bibtex(catalog: &Catalog, resources_path: &str) -> (entries: String)
    requires
        catalog.wf(),
    ensures
        entries@ == bibliography(
            record_views(catalog.resources@),
            catalog.content_types.keys(),
            catalog.content_types.values(),
            resources_path@,
        ),
{
    let ghost all = record_views(catalog.resources@);
    let mut entries = String::new();
    let mut i: usize = 0;
    while i < catalog.resources.len()
        invariant
            i <= catalog.resources@.len(),
            catalog.wf(),
            all == record_views(catalog.resources@),
            entries@ == bibliography(
                all.take(i as int),
                catalog.content_types.keys(),
                catalog.content_types.values(),
                resources_path@,
            ),
        decreases catalog.resources@.len() - i,
    {
        assert(all.take(i + 1).drop_last() == all.take(i as int));
        assert(all.take(i + 1).last() == catalog.resources@[i as int]@);
        assert(all[i as int] == catalog.resources@[i as int]@);
        entries.append(
            catalog.resources[i].serialize_bibtex(&catalog.content_types, resources_path).as_str(),
        );
        i += 1;
    }
    assert(all.take(all.len() as int) == all);
    entries
}

} // verus!
