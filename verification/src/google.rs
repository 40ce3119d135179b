//! Requests to the Google Drive and Docs APIs: the URLs they go to, how a
//! listing is paged, when a failed request is tried again, and the error text.

use vstd::prelude::*;
use vstd::utf8::encode_utf8;
use crate::drive::{DriveFile, DriveFileRaw, DriveFileRawView, DriveFileView, file_from_raw, file_views};
use crate::text::{decimal, is_blank, is_blank_text, usize_text, opt_text};

verus! {

/// Files asked for per page of a listing.
pub const PAGE_SIZE: usize = 100;

/// How often a Docs request is made before its failure is final.
pub const DOC_SCAN_RETRIES: usize = 3;

/// The fields that a listing asks for.
pub const LIST_FIELDS: &'static str = "nextPageToken,files(id,name,mimeType,modifiedTime,size,webViewLink,iconLink,owners(displayName,emailAddress),parents)";

/// The fields that a document request asks for.
pub const DOC_FIELDS: &'static str = "inlineObjects,positionedObjects";

pub const DRIVE_FILES_ENDPOINT: &'static str = "https://www.googleapis.com/drive/v3/files";

pub const DOCS_ENDPOINT: &'static str = "https://docs.googleapis.com/v1/documents/";

/// An ASCII letter or digit: the bytes that percent-encoding leaves alone.
pub open spec fn is_ascii_alphanumeric_byte(b: u8) -> bool {
    (48 <= b <= 57) || (65 <= b <= 90) || (97 <= b <= 122)
}

/// The upper-case hexadecimal digit for `n`, which is below sixteen.
pub open spec fn hex_upper(n: u8) -> char {
    if n < 10 {
        (48 + n) as char
    } else {
        (55 + n) as char
    }
}

/// One byte, percent-encoded unless it is an ASCII letter or digit.
pub open spec fn percent_encode_byte(b: u8) -> Seq<char> {
    if is_ascii_alphanumeric_byte(b) {
        seq![b as char]
    } else {
        seq!['%', hex_upper(b / 16), hex_upper(b % 16)]
    }
}

/// Bytes, each percent-encoded unless it is an ASCII letter or digit.
pub open spec fn percent_encode_bytes(bytes: Seq<u8>) -> Seq<char>
    decreases bytes.len(),
{
    if bytes.len() == 0 {
        Seq::empty()
    } else {
        percent_encode_bytes(bytes.drop_last()) + percent_encode_byte(bytes.last())
    }
}

/// The UTF-8 encoding of `s`, each byte percent-encoded unless it is an ASCII
/// letter or digit.
pub open spec fn percent_encoded(s: Seq<char>) -> Seq<char> {
    percent_encode_bytes(encode_utf8(s))
}

/// `percent_encoding::utf8_percent_encode(input, NON_ALPHANUMERIC).to_string()`:
/// the UTF-8 bytes of `input`, each written as `%` and two upper-case hex digits
/// unless it is an ASCII letter or digit.
#[verifier::external_body]
fn utf8_percent_encode_non_alphanumeric(input: &str) -> (r: String)
    ensures
        r@ == percent_encoded(input@),
{
    percent_encoding::utf8_percent_encode(input, percent_encoding::NON_ALPHANUMERIC).to_string()
}

/// The reason phrase that `reqwest::StatusCode` shows for `code`: its canonical
/// reason, or `<unknown status code>` where it has none.
pub uninterp spec fn status_reason(code: u16) -> Seq<char>;

/// `reqwest::StatusCode::from_u16(code)` shown with `Display`: the code in
/// decimal, a space, and its reason phrase.
#[verifier::external_body]
fn status_text(code: u16) -> (r: String)
    requires
        100 <= code <= 999,
    ensures
        r@ == decimal(code as nat) + seq![' '] + status_reason(code),
{
    match reqwest::StatusCode::from_u16(code) {
        Ok(status) => status.to_string(),
        Err(_) => String::new(),
    }
}

/// `reqwest::StatusCode::is_success` for `code`: whether it is in 200..300.
#[verifier::external_body]
fn status_is_success(code: u16) -> (r: bool)
    requires
        100 <= code <= 999,
    ensures
        r == (200 <= code < 300),
{
    match reqwest::StatusCode::from_u16(code) {
        Ok(status) => status.is_success(),
        Err(_) => false,
    }
}

/// `reqwest::StatusCode::is_server_error` for `code`: whether it is in 500..600.
#[verifier::external_body]
fn status_is_server_error(code: u16) -> (r: bool)
    requires
        100 <= code <= 999,
    ensures
        r == (500 <= code < 600),
{
    match reqwest::StatusCode::from_u16(code) {
        Ok(status) => status.is_server_error(),
        Err(_) => false,
    }
}

/// `input` percent-encoded, every byte but ASCII letters and digits escaped.
pub fn percent_encode(input: &str) -> (r: String)
    ensures
        r@ == percent_encoded(input@),
{
    utf8_percent_encode_non_alphanumeric(input)
}

/// Whether a response with status `code` succeeded.
pub fn is_success_status(code: u16) -> (b: bool)
    requires
        100 <= code <= 999,
    ensures
        b == (200 <= code < 300),
{
    status_is_success(code)
}

/// The Drive search that lists the children of `parent_id` that are not trashed.
pub open spec fn list_query(parent_id: Seq<char>) -> Seq<char> {
    seq!['\''] + parent_id + "' in parents and trashed = false"@
}

/// The URL of one page of the children of `parent_id`.
pub open spec fn list_url_text(parent_id: Seq<char>, page_token: Option<Seq<char>>) -> Seq<char> {
    let base = DRIVE_FILES_ENDPOINT@ + "?q="@ + percent_encoded(list_query(parent_id)) + "&pageSize="@
        + decimal(PAGE_SIZE as nat) + "&fields="@ + percent_encoded(LIST_FIELDS@)
        + "&orderBy=folder,name_natural"@;
    match page_token {
        Some(t) => base + "&pageToken="@ + percent_encoded(t),
        None => base,
    }
}

/// The URL of one page of the children of `parent_id`, after the page that
/// handed out `page_token` where there is one.
pub fn list_url(parent_id: &str, page_token: Option<&str>) -> (url: String)
    ensures
        url@ == list_url_text(parent_id@, match page_token { Some(t) => Some(t@), None => None }),
{
    let mut query = "'".to_owned();
    query.append(parent_id);
    query.append("' in parents and trashed = false");
    let encoded_query = percent_encode(query.as_str());
    let encoded_fields = percent_encode(LIST_FIELDS);
    let page_size = usize_text(PAGE_SIZE);
    let mut url = DRIVE_FILES_ENDPOINT.to_owned();
    url.append("?q=");
    url.append(encoded_query.as_str());
    url.append("&pageSize=");
    url.append(page_size.as_str());
    url.append("&fields=");
    url.append(encoded_fields.as_str());
    url.append("&orderBy=folder,name_natural");
    let ghost base = url@;
    match page_token {
        Some(t) => {
            let encoded_token = percent_encode(t);
            url.append("&pageToken=");
            url.append(encoded_token.as_str());
        },
        None => {},
    }
    proof {
        reveal_strlit("'");
        assert(query@ =~= list_query(parent_id@));
    }
    url
}

/// The URL of the image-related fields of document `document_id`.
pub open spec fn document_url_text(document_id: Seq<char>) -> Seq<char> {
    DOCS_ENDPOINT@ + document_id + "?fields="@ + percent_encoded(DOC_FIELDS@)
}

/// The URL of the image-related fields of document `document_id`.
pub fn document_url(document_id: &str) -> (url: String)
    ensures
        url@ == document_url_text(document_id@),
{
    let fields = percent_encode(DOC_FIELDS);
    let mut url = DOCS_ENDPOINT.to_owned();
    url.append(document_id);
    url.append("?fields=");
    url.append(fields.as_str());
    url
}

/// The message for a failed request: the context, the status, and the body
/// where it holds more than white space.
pub open spec fn google_error_text(context: Seq<char>, status: Seq<char>, body: Seq<char>) -> Seq<char> {
    if is_blank_text(body) {
        context + " failed with status "@ + status + "."@
    } else {
        context + " failed with status "@ + status + ": "@ + body
    }
}

/// The message for a failed request, given the status as shown.
pub fn google_error_message(context: &str, status: &str, body: &str) -> (msg: String)
    ensures
        msg@ == google_error_text(context@, status@, body@),
{
    let mut msg = context.to_owned();
    msg.append(" failed with status ");
    msg.append(status);
    if is_blank(body) {
        msg.append(".");
    } else {
        msg.append(": ");
        msg.append(body);
    }
    msg
}

/// The message for a request that failed with status `code` and body `body`.
pub fn format_google_error(context: &str, code: u16, body: &str) -> (msg: String)
    requires
        100 <= code <= 999,
    ensures
        msg@ == google_error_text(context@, decimal(code as nat) + seq![' '] + status_reason(code), body@),
{
    let status = status_text(code);
    google_error_message(context, status.as_str(), body)
}

/// A failed Docs response with status `code` is worth another try: too many
/// requests, or a server error.
pub open spec fn is_retryable_status(code: u16) -> bool {
    code == 429 || (500 <= code < 600)
}

/// `2` to the power `n`.
pub open spec fn power_of_two(n: nat) -> nat
    decreases n,
{
    if n == 0 {
        1
    } else {
        2 * power_of_two((n - 1) as nat)
    }
}

/// What follows a failed Docs response.
pub enum RetryStep {
    /// The failure is final.
    GiveUp,
    /// Wait this many milliseconds, then try again.
    RetryAfter(u64),
}

/// What follows a failed response with status `code` to attempt number
/// `attempt` (from zero): another try after `350 * 2^attempt` milliseconds when
/// the status is worth it and tries are left, else the end.
pub fn after_failed_response(code: u16, attempt: usize) -> (step: RetryStep)
    requires
        100 <= code <= 999,
        attempt < DOC_SCAN_RETRIES,
    ensures
        match step {
            RetryStep::GiveUp => !is_retryable_status(code) || attempt + 1 >= DOC_SCAN_RETRIES,
            RetryStep::RetryAfter(ms) => is_retryable_status(code) && attempt + 1 < DOC_SCAN_RETRIES
                && ms == 350 * power_of_two(attempt as nat),
        },
{
    let should_retry = code == 429 || status_is_server_error(code);
    if !should_retry || attempt + 1 >= DOC_SCAN_RETRIES {
        return RetryStep::GiveUp;
    }
    let mut ms: u64 = 350;
    let mut i: usize = 0;
    while i < attempt
        invariant
            i <= attempt < DOC_SCAN_RETRIES,
            ms == 350 * power_of_two(i as nat),
        decreases attempt - i,
    {
        assert(power_of_two((i + 1) as nat) == 2 * power_of_two(i as nat));
        assert(power_of_two(i as nat) <= 2) by {
            if i == 1 {
                assert(power_of_two(1) == 2 * power_of_two(0));
            }
        }
        ms = ms * 2;
        i = i + 1;
    }
    RetryStep::RetryAfter(ms)
}

/// The files of one listing page, each made into the app's record.
pub open spec fn files_from_raw(raws: Seq<DriveFileRawView>) -> Seq<DriveFileView> {
    raws.map_values(|r: DriveFileRawView| file_from_raw(r))
}

/// The paging of the children of one folder.
pub struct ListPager {
    parent_id: String,
    page_token: Option<String>,
    files: Vec<DriveFile>,
    finished: bool,
}

pub struct ListPagerView {
    pub parent_id: Seq<char>,
    pub page_token: Option<Seq<char>>,
    pub files: Seq<DriveFileView>,
    pub finished: bool,
}

impl View for ListPager {
    type V = ListPagerView;

    closed spec fn view(&self) -> ListPagerView {
        ListPagerView {
            parent_id: self.parent_id@,
            page_token: opt_text(self.page_token),
            files: file_views(self.files@),
            finished: self.finished,
        }
    }
}

impl ListPager {
    /// Paging of the children of `parent_id`, no page read yet.
    pub fn new(parent_id: &str) -> (p: ListPager)
        ensures
            p@ == (ListPagerView { parent_id: parent_id@, page_token: None, files: Seq::empty(), finished: false }),
    {
        let p = ListPager { parent_id: parent_id.to_owned(), page_token: None, files: Vec::new(), finished: false };
        assert(p@.files =~= Seq::<DriveFileView>::empty());
        p
    }

    /// The URL of the next page, or `None` once the last page was read.
    pub fn next_url(&self) -> (url: Option<String>)
        ensures
            match url {
                Some(u) => !self@.finished && u@ == list_url_text(self@.parent_id, self@.page_token),
                None => self@.finished,
            },
    {
        if self.finished {
            return None;
        }
        let url = match &self.page_token {
            Some(t) => list_url(self.parent_id.as_str(), Some(t.as_str())),
            None => list_url(self.parent_id.as_str(), None),
        };
        Some(url)
    }

    /// Takes in a page: its files join the listing, and its token, if any, leads
    /// to the next page; without one the listing is complete.
    pub fn absorb_page(&mut self, page: Vec<DriveFileRaw>, next_page_token: Option<String>)
        requires
            !old(self)@.finished,
        ensures
            final(self)@ == (ListPagerView {
                parent_id: old(self)@.parent_id,
                page_token: opt_text(next_page_token),
                files: old(self)@.files + files_from_raw(page@.map_values(|r: DriveFileRaw| r@)),
                finished: next_page_token is None,
            }),
    {
        let ghost raws = page@.map_values(|r: DriveFileRaw| r@);
        let ghost start = file_views(self.files@);
        let mut page = page;
        let ghost n = page@.len();
        while page.len() > 0
            invariant
                page@.len() <= n,
                n == raws.len(),
                self.parent_id == old(self).parent_id,
                start == old(self)@.files,
                forall|k: int| 0 <= k < page@.len() ==> (#[trigger] page@[k])@ == raws[n - page@.len() + k],
                file_views(self.files@) == start + files_from_raw(raws.subrange(0, n - page@.len())),
            decreases page@.len(),
        {
            let ghost done = n - page@.len();
            let ghost old_page = page@;
            assert(old_page[0]@ == raws[done]);
            let raw = page.remove(0);
            assert forall|k: int| 0 <= k < page@.len() implies (#[trigger] page@[k])@ == raws[n - page@.len() + k] by {
                assert(page@[k] == old_page[k + 1]);
            }
            let ghost before = self.files@;
            self.files.push(DriveFile::from(raw));
            proof {
                assert(file_views(self.files@) =~= file_views(before).push(file_from_raw(raws[done])));
                assert(files_from_raw(raws.subrange(0, done + 1)) =~= files_from_raw(raws.subrange(0, done)).push(file_from_raw(raws[done])));
            }
        }
        assert(raws.subrange(0, n as int) =~= raws);
        self.finished = next_page_token.is_none();
        self.page_token = next_page_token;
    }

    /// The listing read so far.
    pub fn into_files(self) -> (files: Vec<DriveFile>)
        ensures
            file_views(files@) == self@.files,
    {
        self.files
    }
}

} // verus!
