use vstd::prelude::*;

verus! {

/// The state of the dialog that creates or opens a project: the text of
/// its two fields, and whether the dialog is to be opened or closed on the
/// next frame.
pub struct ProjectLoader {
    pub new_project_path_buffer: String,
    pub new_project_name_buffer: String,
    pub open_load_project_modal: bool,
    pub close_load_project_modal: bool,
}

impl ProjectLoader {
    /// A dialog with empty fields, to be opened on the first frame.
    pub fn new() -> (r: Self)
        ensures
            r.new_project_path_buffer@ == Seq::<char>::empty(),
            r.new_project_name_buffer@ == Seq::<char>::empty(),
            r.open_load_project_modal,
            !r.close_load_project_modal,
    {
        ProjectLoader {
            new_project_path_buffer: String::new(),
            new_project_name_buffer: String::new(),
            open_load_project_modal: true,
            close_load_project_modal: false,
        }
    }

    /// Asks for the dialog to be opened on the next frame.
    pub fn open_load_project_modal(&mut self)
        ensures
            final(self).open_load_project_modal,
            final(self).close_load_project_modal == old(self).close_load_project_modal,
            final(self).new_project_path_buffer == old(self).new_project_path_buffer,
            final(self).new_project_name_buffer == old(self).new_project_name_buffer,
    {
        self.open_load_project_modal = true;
    }
}

/// What a folder dialog gave back: the folder chosen for a new project or
/// for opening one, or nothing when it was cancelled.
pub enum FileDialogReturnInfo {
    NewProject(Option<String>),
    OpenProject(Option<String>),
}

impl ProjectLoader {
    /// On the frame after the dialog was asked for: the location field
    /// starts at the user's home folder, and the dialog is to be shown now.
    /// Gives whether it is.
    pub fn take_open_request(&mut self, home_dir: String) -> (r: bool)
        ensures
            r == old(self).open_load_project_modal,
            !final(self).open_load_project_modal,
            final(self).close_load_project_modal == old(self).close_load_project_modal,
            final(self).new_project_name_buffer == old(self).new_project_name_buffer,
            final(self).new_project_path_buffer@ == (if r { home_dir@ } else { old(self).new_project_path_buffer@ }),
    {
        if self.open_load_project_modal {
            self.new_project_path_buffer = home_dir;
            self.open_load_project_modal = false;
            true
        } else {
            false
        }
    }

    /// While the dialog is shown: gives whether it is to close now, and
    /// forgets the request.
    pub fn take_close_request(&mut self) -> (r: bool)
        ensures
            r == old(self).close_load_project_modal,
            !final(self).close_load_project_modal,
            final(self).open_load_project_modal == old(self).open_load_project_modal,
            final(self).new_project_name_buffer == old(self).new_project_name_buffer,
            final(self).new_project_path_buffer == old(self).new_project_path_buffer,
    {
        let r = self.close_load_project_modal;
        self.close_load_project_modal = false;
        r
    }

    /// A folder dialog closed: a folder chosen for a new project goes to
    /// the location field; a folder chosen to open is the project to load,
    /// and the dialog is to close. Gives the project to load.
    pub fn folder_chosen(&mut self, info: FileDialogReturnInfo) -> (r: Option<String>)
        ensures
            final(self).open_load_project_modal == old(self).open_load_project_modal,
            final(self).new_project_name_buffer == old(self).new_project_name_buffer,
            match info {
                FileDialogReturnInfo::NewProject(Some(path)) => {
                    &&& r is None
                    &&& final(self).new_project_path_buffer == path
                    &&& final(self).close_load_project_modal == old(self).close_load_project_modal
                },
                FileDialogReturnInfo::OpenProject(Some(path)) => {
                    &&& r == Some(path)
                    &&& final(self).new_project_path_buffer == old(self).new_project_path_buffer
                    &&& final(self).close_load_project_modal
                },
                _ => {
                    &&& r is None
                    &&& final(self).new_project_path_buffer == old(self).new_project_path_buffer
                    &&& final(self).close_load_project_modal == old(self).close_load_project_modal
                },
            },
    {
        match info {
            FileDialogReturnInfo::NewProject(Some(path)) => {
                self.new_project_path_buffer = path;
                None
            },
            FileDialogReturnInfo::OpenProject(Some(path)) => {
                self.close_load_project_modal = true;
                Some(path)
            },
            _ => None,
        }
    }
}

/// Characters that are reserved in file names on some system.
pub open spec fn reserved_in_file_names(c: char) -> bool {
    c == '/' || c == '\\' || c == '?' || c == '%' || c == '*' || c == ':' || c == '|' || c == '"' || c == '<' || c == '>'
}

/// The project name field keeps letters, digits, spaces, dashes,
/// underscores and dots, and drops the separators of paths on any system.
pub proof fn lemma_name_filter_keeps_name_chars(c: char)
    ensures
        ('a' <= c <= 'z' || 'A' <= c <= 'Z' || '0' <= c <= '9' || c == ' ' || c == '-' || c == '_' || c == '.')
            ==> !reserved_in_file_names(c),
        c == '/' || c == '\\' || c == ':' ==> reserved_in_file_names(c),
{
}

/// The filter of the project name field: a character reserved in file
/// names is dropped, any other kept.
pub fn file_name_char_filter(c: char) -> (r: Option<char>)
    ensures
        r == (if reserved_in_file_names(c) {
            None
        } else {
            Some(c)
        }),
{
    let invalid_chars: [char; 11] = ['/', '\\', '?', '%', '*', '*', ':', '|', '"', '<', '>'];
    let mut i: usize = 0;
    while i < 11
        invariant
            0 <= i <= 11,
            invalid_chars@ == seq!['/', '\\', '?', '%', '*', '*', ':', '|', '"', '<', '>'],
            forall|k: int| 0 <= k < i ==> invalid_chars@[k] != c,
        decreases 11 - i,
    {
        if invalid_chars[i] == c {
            return None;
        }
        i = i + 1;
    }
    Some(c)
}

} // verus!
