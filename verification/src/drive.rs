//! Drive file records: what the Drive API lists, and the record the app keeps.

use vstd::prelude::*;
use crate::text::{opt_text, texts, copy_opt_text, copy_texts, same_text};

verus! {

/// MIME type of a Drive folder.
pub const DRIVE_FOLDER_MIME: &'static str = "application/vnd.google-apps.folder";

/// MIME type of a Google Doc.
pub const GOOGLE_DOC_MIME: &'static str = "application/vnd.google-apps.document";

/// An owner of a file, as the Drive API lists it.
pub struct DriveOwner {
    pub display_name: Option<String>,
    pub email_address: Option<String>,
}

/// A file as the Drive API lists it.
pub struct DriveFileRaw {
    pub id: String,
    pub name: String,
    pub mime_type: String,
    pub modified_time: Option<String>,
    pub size: Option<String>,
    pub web_view_link: Option<String>,
    pub icon_link: Option<String>,
    pub owners: Option<Vec<DriveOwner>>,
    pub parents: Option<Vec<String>>,
}

/// A file as the app shows it.
pub struct DriveFile {
    pub id: String,
    pub name: String,
    pub mime_type: String,
    pub modified_time: Option<String>,
    pub size: Option<String>,
    pub web_view_link: Option<String>,
    pub icon_link: Option<String>,
    pub owner_names: Vec<String>,
    pub parent_ids: Vec<String>,
    pub is_folder: bool,
    pub is_google_doc: bool,
    pub has_images: Option<bool>,
}

pub struct DriveOwnerView {
    pub display_name: Option<Seq<char>>,
    pub email_address: Option<Seq<char>>,
}

pub struct DriveFileRawView {
    pub id: Seq<char>,
    pub name: Seq<char>,
    pub mime_type: Seq<char>,
    pub modified_time: Option<Seq<char>>,
    pub size: Option<Seq<char>>,
    pub web_view_link: Option<Seq<char>>,
    pub icon_link: Option<Seq<char>>,
    pub owners: Option<Seq<DriveOwnerView>>,
    pub parents: Option<Seq<Seq<char>>>,
}

pub struct DriveFileView {
    pub id: Seq<char>,
    pub name: Seq<char>,
    pub mime_type: Seq<char>,
    pub modified_time: Option<Seq<char>>,
    pub size: Option<Seq<char>>,
    pub web_view_link: Option<Seq<char>>,
    pub icon_link: Option<Seq<char>>,
    pub owner_names: Seq<Seq<char>>,
    pub parent_ids: Seq<Seq<char>>,
    pub is_folder: bool,
    pub is_google_doc: bool,
    pub has_images: Option<bool>,
}

impl View for DriveOwner {
    type V = DriveOwnerView;

    open spec fn view(&self) -> DriveOwnerView {
        DriveOwnerView {
            display_name: opt_text(self.display_name),
            email_address: opt_text(self.email_address),
        }
    }
}

impl View for DriveFileRaw {
    type V = DriveFileRawView;

    open spec fn view(&self) -> DriveFileRawView {
        DriveFileRawView {
            id: self.id@,
            name: self.name@,
            mime_type: self.mime_type@,
            modified_time: opt_text(self.modified_time),
            size: opt_text(self.size),
            web_view_link: opt_text(self.web_view_link),
            icon_link: opt_text(self.icon_link),
            owners: match self.owners {
                Some(v) => Some(v@.map_values(|o: DriveOwner| o@)),
                None => None,
            },
            parents: match self.parents {
                Some(v) => Some(texts(v@)),
                None => None,
            },
        }
    }
}

impl View for DriveFile {
    type V = DriveFileView;

    open spec fn view(&self) -> DriveFileView {
        DriveFileView {
            id: self.id@,
            name: self.name@,
            mime_type: self.mime_type@,
            modified_time: opt_text(self.modified_time),
            size: opt_text(self.size),
            web_view_link: opt_text(self.web_view_link),
            icon_link: opt_text(self.icon_link),
            owner_names: texts(self.owner_names@),
            parent_ids: texts(self.parent_ids@),
            is_folder: self.is_folder,
            is_google_doc: self.is_google_doc,
            has_images: self.has_images,
        }
    }
}

/// The views of a sequence of files.
pub open spec fn file_views(v: Seq<DriveFile>) -> Seq<DriveFileView> {
    v.map_values(|f: DriveFile| f@)
}

/// The name shown for an owner: the display name, else the e-mail address.
pub open spec fn owner_label(o: DriveOwnerView) -> Option<Seq<char>> {
    match o.display_name {
        Some(n) => Some(n),
        None => o.email_address,
    }
}

/// The labels of the owners that have one, in order.
pub open spec fn owner_labels(owners: Seq<DriveOwnerView>) -> Seq<Seq<char>>
    decreases owners.len(),
{
    if owners.len() == 0 {
        Seq::empty()
    } else {
        let rest = owner_labels(owners.drop_last());
        match owner_label(owners.last()) {
            Some(l) => rest.push(l),
            None => rest,
        }
    }
}

/// The record the app keeps for a listed file.
pub open spec fn file_from_raw(r: DriveFileRawView) -> DriveFileView {
    DriveFileView {
        id: r.id,
        name: r.name,
        mime_type: r.mime_type,
        modified_time: r.modified_time,
        size: r.size,
        web_view_link: r.web_view_link,
        icon_link: r.icon_link,
        owner_names: match r.owners {
            Some(o) => owner_labels(o),
            None => Seq::empty(),
        },
        parent_ids: match r.parents {
            Some(p) => p,
            None => Seq::empty(),
        },
        is_folder: r.mime_type == DRIVE_FOLDER_MIME@,
        is_google_doc: r.mime_type == GOOGLE_DOC_MIME@,
        has_images: None,
    }
}

fn owner_names_of(owners: &Vec<DriveOwner>) -> (r: Vec<String>)
    ensures
        texts(r@) == owner_labels(owners@.map_values(|o: DriveOwner| o@)),
{
    let ghost ov = owners@.map_values(|o: DriveOwner| o@);
    let mut r: Vec<String> = Vec::new();
    let mut i: usize = 0;
    while i < owners.len()
        invariant
            i <= owners@.len(),
            ov == owners@.map_values(|o: DriveOwner| o@),
            texts(r@) == owner_labels(ov.subrange(0, i as int)),
        decreases owners@.len() - i,
    {
        let ghost before = r@;
        let o = &owners[i];
        match &o.display_name {
            Some(n) => r.push(n.clone()),
            None => match &o.email_address {
                Some(e) => r.push(e.clone()),
                None => {},
            },
        }
        proof {
            let sub = ov.subrange(0, i + 1);
            assert(sub.drop_last() =~= ov.subrange(0, i as int));
            assert(sub.last() == o@);
            assert(texts(r@) =~= owner_labels(sub));
        }
        i = i + 1;
    }
    assert(ov.subrange(0, owners@.len() as int) =~= ov);
    r
}

impl DriveFile {
    /// The record for a listed file: owners reduced to their names, parents
    /// defaulted to none, and the folder / Google Doc flags set from the MIME type.
    pub fn from(value: DriveFileRaw) -> (f: DriveFile)
        ensures
            f@ == file_from_raw(value@),
    {
        let owner_names = match &value.owners {
            Some(o) => owner_names_of(o),
            None => Vec::new(),
        };
        let parent_ids = match value.parents {
            Some(p) => p,
            None => Vec::new(),
        };
        let is_folder = same_text(value.mime_type.as_str(), DRIVE_FOLDER_MIME);
        let is_google_doc = same_text(value.mime_type.as_str(), GOOGLE_DOC_MIME);
        let f = DriveFile {
            id: value.id,
            name: value.name,
            mime_type: value.mime_type,
            modified_time: value.modified_time,
            size: value.size,
            web_view_link: value.web_view_link,
            icon_link: value.icon_link,
            owner_names,
            parent_ids,
            is_folder,
            is_google_doc,
            has_images: None,
        };
        assert(f@.owner_names =~= file_from_raw(value@).owner_names);
        assert(f@.parent_ids =~= file_from_raw(value@).parent_ids);
        f
    }

    /// A copy of this record.
    pub fn duplicate(&self) -> (f: DriveFile)
        ensures
            f@ == self@,
    {
        let f = DriveFile {
            id: self.id.clone(),
            name: self.name.clone(),
            mime_type: self.mime_type.clone(),
            modified_time: copy_opt_text(&self.modified_time),
            size: copy_opt_text(&self.size),
            web_view_link: copy_opt_text(&self.web_view_link),
            icon_link: copy_opt_text(&self.icon_link),
            owner_names: copy_texts(&self.owner_names),
            parent_ids: copy_texts(&self.parent_ids),
            is_folder: self.is_folder,
            is_google_doc: self.is_google_doc,
            has_images: self.has_images,
        };
        assert(f@.owner_names =~= self@.owner_names);
        assert(f@.parent_ids =~= self@.parent_ids);
        f
    }
}

/// Copies of the files in `files`, in order.
pub fn copy_files(files: &Vec<DriveFile>) -> (r: Vec<DriveFile>)
    ensures
        file_views(r@) == file_views(files@),
{
    let mut r: Vec<DriveFile> = Vec::new();
    let mut i: usize = 0;
    while i < files.len()
        invariant
            i <= files@.len(),
            r@.len() == i,
            forall|k: int| 0 <= k < i ==> (#[trigger] r@[k])@ == files@[k]@,
        decreases files@.len() - i,
    {
        r.push(files[i].duplicate());
        i = i + 1;
    }
    assert(file_views(r@) =~= file_views(files@));
    r
}

} // verus!
