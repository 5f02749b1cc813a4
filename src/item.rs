use vstd::prelude::*;

verus! {

/// One record of the clipboard history.
///
/// `content` holds the captured text itself, or the path of a saved image
/// file; `content_type` is `text`, `image` or `file`.
#[derive(Debug, Clone)]
pub struct ClipboardItem {
    pub id: String,
    pub content: String,
    pub content_type: String,
    pub created_at: u64,
    pub is_favorite: bool,
}

/// The mathematical value of a [`ClipboardItem`].
pub ghost struct ItemView {
    pub id: Seq<char>,
    pub content: Seq<char>,
    pub content_type: Seq<char>,
    pub created_at: u64,
    pub is_favorite: bool,
}

impl View for ClipboardItem {
    type V = ItemView;

    open spec fn view(&self) -> ItemView {
        ItemView {
            id: self.id@,
            content: self.content@,
            content_type: self.content_type@,
            created_at: self.created_at,
            is_favorite: self.is_favorite,
        }
    }
}

impl ClipboardItem {
    /// A copy of this record with the same value.
    pub fn copied(&self) -> (r: ClipboardItem)
        ensures
            r@ == self@,
    {
        ClipboardItem {
            id: self.id.clone(),
            content: self.content.clone(),
            content_type: self.content_type.clone(),
            created_at: self.created_at,
            is_favorite: self.is_favorite,
        }
    }
}

/// The views of a sequence of records, in order.
pub open spec fn views(s: Seq<ClipboardItem>) -> Seq<ItemView> {
    s.map_values(|c: ClipboardItem| c@)
}

/// A user-defined file-search filter: a label and the file extensions it selects.
#[derive(Debug, Clone)]
pub struct CustomFilter {
    pub id: String,
    pub label: String,
    pub extensions: Vec<String>,
}

} // verus!
