//! Registry of local model files and of which models are loaded.

use vstd::prelude::*;
use vstd::string::StringExecFns;
use crate::metrics::str_eq;
use crate::strutil::{string_views, chars_of, lowercase, string_from_chars, to_lowercase, to_uppercase, uppercase};
use crate::types::{DownloadModelRequest, Model, ModelConfig, ModelFormat};

verus! {

/// What `char::is_alphanumeric` returns (Alphabetic or Numeric property).
pub uninterp spec fn is_alphanumeric(c: char) -> bool;

/// Calls `char::is_alphanumeric`; the result is named.
#[verifier::external_body]
fn char_is_alphanumeric(c: char) -> (b: bool)
    ensures
        b == is_alphanumeric(c),
{
    c.is_alphanumeric()
}

/// Index of the first `q`, if any.
pub open spec fn first_q(s: Seq<char>) -> Option<nat>
    decreases s.len(),
{
    if s.len() == 0 {
        None
    } else if s[0] == 'q' {
        Some(0)
    } else {
        match first_q(s.drop_first()) {
            Some(i) => Some(i + 1),
            None => None,
        }
    }
}

/// Whether a character ends a quantization tag.
pub open spec fn ends_tag(c: char) -> bool {
    !is_alphanumeric(c) && c != '_'
}

/// Index of the first character that ends a tag, if any.
pub open spec fn first_tag_end(s: Seq<char>) -> Option<nat>
    decreases s.len(),
{
    if s.len() == 0 {
        None
    } else if ends_tag(s[0]) {
        Some(0)
    } else {
        match first_tag_end(s.drop_first()) {
            Some(i) => Some(i + 1),
            None => None,
        }
    }
}

/// The quantization tag of a lowercased file name, still in lower case:
/// from the first `q` up to the first character that is neither
/// alphanumeric nor `_` (or to the end of the name); none when there is no `q`.
pub open spec fn quantization_span(lower: Seq<char>) -> Option<Seq<char>> {
    match first_q(lower) {
        Some(start) => {
            let rest = lower.skip(start as int);
            match first_tag_end(rest) {
                Some(end) => Some(rest.take(end as int)),
                None => Some(rest),
            }
        },
        None => None,
    }
}

/// The quantization tag of a lowercased file name, in upper case.
pub open spec fn quantization_of(lower: Seq<char>) -> Option<Seq<char>> {
    match quantization_span(lower) {
        Some(t) => Some(uppercase(t)),
        None => None,
    }
}

proof fn lemma_first_index(s: Seq<char>, i: int)
    requires
        0 <= i <= s.len(),
        forall|k: int| 0 <= k < i ==> s[k] != 'q',
        i < s.len() ==> s[i] == 'q',
    ensures
        first_q(s) == if i < s.len() { Some(i as nat) } else { None },
    decreases s.len(),
{
    if s.len() > 0 && i > 0 {
        lemma_first_index(s.drop_first(), i - 1);
    }
}

proof fn lemma_first_tag_end(s: Seq<char>, i: int)
    requires
        0 <= i <= s.len(),
        forall|k: int| 0 <= k < i ==> !ends_tag(#[trigger] s[k]),
        i < s.len() ==> ends_tag(s[i]),
    ensures
        first_tag_end(s) == if i < s.len() { Some(i as nat) } else { None },
    decreases s.len(),
{
    if s.len() > 0 && i > 0 {
        assert forall|k: int| 0 <= k < i - 1 implies !ends_tag(#[trigger] s.drop_first()[k]) by {
            assert(s.drop_first()[k] == s[k + 1]);
        }
        lemma_first_tag_end(s.drop_first(), i - 1);
    }
}

/// The quantization tag in a model file name (e.g. `Q4_K_M`).
pub fn extract_quantization(filename: &str) -> (r: Option<String>)
    ensures
        (match r { Some(s) => Some(s@), None => None }) == quantization_of(lowercase(filename@)),
{
    let lower_string = to_lowercase(filename);
    match lowercase_quantization_tag(lower_string.as_str()) {
        Some(tag) => Some(to_uppercase(tag.as_str())),
        None => None,
    }
}

/// The quantization tag of a file name already in lower case, before it
/// is put in upper case.
pub fn lowercase_quantization_tag(lower_name: &str) -> (r: Option<String>)
    ensures
        (match r { Some(s) => Some(s@), None => None }) == quantization_span(lower_name@),
{
    let lower = chars_of(lower_name);
    let n = lower.len();
    let mut start: usize = 0;
    while start < n && lower[start] != 'q'
        invariant
            n == lower@.len(),
            start <= n,
            forall|k: int| 0 <= k < start ==> lower@[k] != 'q',
        decreases n - start,
    {
        start = start + 1;
    }
    proof {
        lemma_first_index(lower@, start as int);
    }
    if start == n {
        return None;
    }
    let ghost rest = lower@.skip(start as int);
    let mut end: usize = start;
    while end < n && (char_is_alphanumeric(lower[end]) || lower[end] == '_')
        invariant
            n == lower@.len(),
            start <= end <= n,
            rest == lower@.skip(start as int),
            forall|k: int| 0 <= k < end - start ==> !ends_tag(#[trigger] rest[k]),
        decreases n - end,
    {
        end = end + 1;
    }
    proof {
        lemma_first_tag_end(rest, end - start);
        if end == n {
            assert(rest.take(end - start) =~= rest);
        }
    }
    let mut tag: Vec<char> = Vec::new();
    let mut k: usize = start;
    while k < end
        invariant
            start <= k <= end <= n,
            n == lower@.len(),
            tag@ == lower@.subrange(start as int, k as int),
        decreases end - k,
    {
        tag.push(lower[k]);
        assert(tag@ =~= lower@.subrange(start as int, k + 1));
        k = k + 1;
    }
    assert(tag@ =~= rest.take(end - start));
    Some(string_from_chars(tag.as_slice()))
}

/// A model record for a file found while scanning the models directory:
/// files with extension `gguf`, `ggml` or `bin` (any case) are models, with
/// id `<stem>-<parent directory name>`.
pub fn model_from_file(stem: &str, parent: &str, extension: &str, path: &str, size: u64) -> (r: Option<Model>)
    ensures
        r is Some <==> (lowercase(extension@) == "gguf"@ || lowercase(extension@) == "ggml"@
            || lowercase(extension@) == "bin"@),
        r matches Some(m) ==> {
            &&& m.id@ == stem@ + "-"@ + parent@
            &&& m.name@ == stem@
            &&& m.path@ == path@
            &&& m.size == size
            &&& (match m.quantization { Some(q) => Some(q@), None => None }) == quantization_of(lowercase(stem@))
            &&& !m.loaded
            &&& m.format == if lowercase(extension@) == "gguf"@ { ModelFormat::GGUF } else { ModelFormat::GGML }
        },
{
    let ext = to_lowercase(extension);
    if !(str_eq(ext.as_str(), "gguf") || str_eq(ext.as_str(), "ggml") || str_eq(ext.as_str(), "bin")) {
        return None;
    }
    model_record(stem, parent, ext.as_str(), path, size, extract_quantization(stem))
}

/// The model record for a file, given its extension in lower case and its
/// quantization tag: none unless the extension is `gguf`, `ggml` or `bin`.
pub fn model_record(
    stem: &str,
    parent: &str,
    lower_extension: &str,
    path: &str,
    size: u64,
    quantization: Option<String>,
) -> (r: Option<Model>)
    ensures
        r is Some <==> (lower_extension@ == "gguf"@ || lower_extension@ == "ggml"@ || lower_extension@ == "bin"@),
        r matches Some(m) ==> {
            &&& m.id@ == stem@ + "-"@ + parent@
            &&& m.name@ == stem@
            &&& m.path@ == path@
            &&& m.size == size
            &&& m.quantization == quantization
            &&& !m.loaded
            &&& m.format == if lower_extension@ == "gguf"@ { ModelFormat::GGUF } else { ModelFormat::GGML }
        },
{
    let is_gguf = str_eq(lower_extension, "gguf");
    if !(is_gguf || str_eq(lower_extension, "ggml") || str_eq(lower_extension, "bin")) {
        return None;
    }
    let mut id = stem.to_owned();
    id.append("-");
    id.append(parent);
    Some(Model {
        id,
        name: stem.to_owned(),
        path: path.to_owned(),
        size,
        quantization,
        loaded: false,
        format: if is_gguf { ModelFormat::GGUF } else { ModelFormat::GGML },
    })
}

/// Abstract value of a model record.
pub struct ModelView {
    pub id: Seq<char>,
    pub name: Seq<char>,
    pub path: Seq<char>,
    pub size: u64,
    pub quantization: Option<Seq<char>>,
    pub loaded: bool,
    pub format: ModelFormat,
}

/// Abstract values of a sequence of model records.
pub open spec fn model_views(v: Seq<Model>) -> Seq<ModelView> {
    v.map_values(|m: Model| model_view(m))
}

pub open spec fn model_view(m: Model) -> ModelView {
    ModelView {
        id: m.id@,
        name: m.name@,
        path: m.path@,
        size: m.size,
        quantization: match m.quantization { Some(q) => Some(q@), None => None },
        loaded: m.loaded,
        format: m.format,
    }
}

fn copy_string_opt(s: &Option<String>) -> (r: Option<String>)
    ensures
        (match r { Some(x) => Some(x@), None => None }) == (match *s { Some(x) => Some(x@), None => None }),
{
    match s {
        Some(x) => Some(x.clone()),
        None => None,
    }
}

/// A copy of a model record.
pub fn copy_model(m: &Model) -> (r: Model)
    ensures
        model_view(r) == model_view(*m),
{
    Model {
        id: m.id.clone(),
        name: m.name.clone(),
        path: m.path.clone(),
        size: m.size,
        quantization: copy_string_opt(&m.quantization),
        loaded: m.loaded,
        format: m.format,
    }
}

/// The first model with a given id.
pub open spec fn find_model(models: Seq<ModelView>, id: Seq<char>) -> Option<ModelView>
    decreases models.len(),
{
    if models.len() == 0 {
        None
    } else if models[0].id == id {
        Some(models[0])
    } else {
        find_model(models.drop_first(), id)
    }
}

/// Errors of model management.
#[derive(Debug, Clone)]
pub enum ModelError {
    /// No model has the given id.
    NotFound(String),
}

impl ModelError {
    /// The error's message: `Model not found: <id>`.
    pub fn message(&self) -> (m: String)
        ensures
            m@ == match *self {
                ModelError::NotFound(id) => "Model not found: "@ + id@,
            },
    {
        match self {
            ModelError::NotFound(id) => {
                let mut m = "Model not found: ".to_owned();
                m.append(id.as_str());
                m
            },
        }
    }
}

/// Loading a model then unloading it leaves the set of loaded models as it
/// was before the load, for a model that was not loaded.
pub proof fn load_unload_law(loaded: Set<Seq<char>>, id: Seq<char>)
    requires
        !loaded.contains(id),
    ensures
        loaded.insert(id).contains(id),
        loaded.insert(id).remove(id) == loaded,
{
    assert(loaded.insert(id).remove(id) =~= loaded);
}

/// Known models and the ids of loaded models.
pub struct ModelManager {
    models: Vec<Model>,
    loaded_models: Vec<String>,
}

impl ModelManager {
    /// Known models, in order of discovery.
    pub closed spec fn models_view(&self) -> Seq<ModelView> {
        model_views(self.models@)
    }

    /// Ids of loaded models.
    pub closed spec fn loaded_view(&self) -> Set<Seq<char>> {
        string_views(self.loaded_models@).to_set()
    }

    /// Every model id occurs once, and so does every loaded id.
    #[verifier::type_invariant]
    spec fn wf(&self) -> bool {
        &&& forall|i: int, j: int| 0 <= i < j < self.models@.len() ==> self.models@[i].id@ != self.models@[j].id@
        &&& forall|i: int, j: int| 0 <= i < j < self.loaded_models@.len() ==> self.loaded_models@[i]@ != self.loaded_models@[j]@
    }

    /// A registry with no models.
    pub fn new() -> (m: Self)
        ensures
            m.models_view().len() == 0,
            m.loaded_view().len() == 0,
    {
        let m = ModelManager { models: Vec::new(), loaded_models: Vec::new() };
        proof {
            assert(m.loaded_view() =~= Set::<Seq<char>>::empty());
        }
        m
    }

    fn index_of(&self, id: &str) -> (r: Option<usize>)
        ensures
            r matches Some(i) ==> i < self.models@.len() && self.models@[i as int].id@ == id@,
            r is None ==> forall|k: int| 0 <= k < self.models@.len() ==> self.models@[k].id@ != id@,
            r matches Some(i) ==> forall|k: int| 0 <= k < i ==> self.models@[k].id@ != id@,
    {
        let n = self.models.len();
        let mut i: usize = 0;
        while i < n
            invariant
                n == self.models@.len(),
                i <= n,
                forall|k: int| 0 <= k < i ==> self.models@[k].id@ != id@,
            decreases n - i,
        {
            if str_eq(self.models[i].id.as_str(), id) {
                return Some(i);
            }
            i = i + 1;
        }
        None
    }

    /// Adds a discovered model, replacing a known model with the same id.
    pub fn insert_model(&mut self, model: Model)
        ensures
            find_model(final(self).models_view(), model.id@) == Some(model_view(model)),
            forall|id: Seq<char>| id != model.id@ ==> #[trigger] find_model(final(self).models_view(), id)
                == find_model(old(self).models_view(), id),
            final(self).loaded_view() == old(self).loaded_view(),
    {
        proof {
            use_type_invariant(&*self);
        }
        let ghost mv = self.models_view();
        match self.index_of(model.id.as_str()) {
            Some(i) => {
                let ghost mid = model_view(model);
                let mut models: Vec<Model> = Vec::new();
                std::mem::swap(&mut models, &mut self.models);
                models.set(i, model);
                proof {
                    assert(model_views(models@) =~= mv.update(i as int, mid));
                    lemma_find_update(mv, i as int, mid);
                }
                self.models = models;
            },
            None => {
                let ghost mid = model_view(model);
                let mut models: Vec<Model> = Vec::new();
                std::mem::swap(&mut models, &mut self.models);
                models.push(model);
                proof {
                    assert(model_views(models@) =~= mv.push(mid));
                    lemma_find_push(mv, mid);
                }
                self.models = models;
            },
        }
    }

    /// All known models.
    pub fn list_models(&self) -> (r: Vec<Model>)
        ensures
            model_views(r@) == self.models_view(),
    {
        let mut r: Vec<Model> = Vec::new();
        let mut i: usize = 0;
        while i < self.models.len()
            invariant
                i <= self.models@.len(),
                model_views(r@) == self.models_view().take(i as int),
            decreases self.models@.len() - i,
        {
            let ghost before = r@;
            let c = copy_model(&self.models[i]);
            r.push(c);
            proof {
                lemma_model_views_push(before, c);
                assert(self.models_view().take(i + 1) =~= self.models_view().take(i as int).push(
                    self.models_view()[i as int]));
            }
            assert(model_views(r@) =~= self.models_view().take(i + 1));
            i = i + 1;
        }
        assert(self.models_view().take(self.models@.len() as int) =~= self.models_view());
        r
    }

    /// The model with a given id.
    pub fn get_model(&self, id: &str) -> (r: Option<Model>)
        ensures
            (match r { Some(m) => Some(model_view(m)), None => None }) == find_model(self.models_view(), id@),
    {
        let ghost mv = self.models_view();
        match self.index_of(id) {
            Some(i) => {
                proof {
                    lemma_find_first(mv, id@, i as int);
                }
                Some(copy_model(&self.models[i]))
            },
            None => {
                proof {
                    lemma_find_first(mv, id@, mv.len() as int);
                }
                None
            },
        }
    }

    /// Marks a known model as loaded; unknown ids are an error and change nothing.
    pub fn load_model(&mut self, id: &str, _config: ModelConfig) -> (r: Result<(), ModelError>)
        ensures
            r is Ok <==> find_model(old(self).models_view(), id@) is Some,
            r is Err ==> final(self).models_view() == old(self).models_view() && final(self).loaded_view() == old(self).loaded_view(),
            r matches Err(e) ==> (e matches ModelError::NotFound(x) && x@ == id@),
            r is Ok ==> final(self).loaded_view() == old(self).loaded_view().insert(id@),
            r is Ok ==> find_model(final(self).models_view(), id@) == Some(ModelView {
                loaded: true,
                ..find_model(old(self).models_view(), id@)->Some_0
            }),
            forall|other: Seq<char>| other != id@ ==> #[trigger] find_model(final(self).models_view(), other)
                == find_model(old(self).models_view(), other),
    {
        proof {
            use_type_invariant(&*self);
        }
        let ghost mv = self.models_view();
        match self.index_of(id) {
            None => {
                proof {
                    lemma_find_first(mv, id@, mv.len() as int);
                }
                Err(ModelError::NotFound(id.to_owned()))
            },
            Some(i) => {
                proof {
                    lemma_find_first(mv, id@, i as int);
                }
                self.add_loaded(id);
                let mut m = copy_model(&self.models[i]);
                m.loaded = true;
                let ghost mid = model_view(m);
                proof {
                    use_type_invariant(&*self);
                }
                let mut models: Vec<Model> = Vec::new();
                std::mem::swap(&mut models, &mut self.models);
                models.set(i, m);
                proof {
                    assert(model_views(models@) =~= mv.update(i as int, mid));
                    lemma_find_update(mv, i as int, mid);
                }
                self.models = models;
                Ok(())
            },
        }
    }

    /// Marks a model as not loaded (nothing happens for an unknown id).
    pub fn unload_model(&mut self, id: &str) -> (r: Result<(), ModelError>)
        ensures
            r is Ok,
            final(self).loaded_view() == old(self).loaded_view().remove(id@),
            find_model(old(self).models_view(), id@) matches Some(m) ==> find_model(final(self).models_view(), id@)
                == Some(ModelView { loaded: false, ..m }),
            find_model(old(self).models_view(), id@) is None ==> final(self).models_view() == old(self).models_view(),
            forall|other: Seq<char>| other != id@ ==> #[trigger] find_model(final(self).models_view(), other)
                == find_model(old(self).models_view(), other),
    {
        proof {
            use_type_invariant(&*self);
        }
        self.remove_loaded(id);
        let ghost mv = self.models_view();
        match self.index_of(id) {
            None => {
                proof {
                    lemma_find_first(mv, id@, mv.len() as int);
                }
            },
            Some(i) => {
                proof {
                    lemma_find_first(mv, id@, i as int);
                }
                let mut m = copy_model(&self.models[i]);
                m.loaded = false;
                let ghost mid = model_view(m);
                proof {
                    use_type_invariant(&*self);
                }
                let mut models: Vec<Model> = Vec::new();
                std::mem::swap(&mut models, &mut self.models);
                models.set(i, m);
                proof {
                    assert(model_views(models@) =~= mv.update(i as int, mid));
                    lemma_find_update(mv, i as int, mid);
                }
                self.models = models;
            },
        }
        Ok(())
    }

    /// Whether a model is loaded.
    pub fn is_loaded(&self, id: &str) -> (b: bool)
        ensures
            b == self.loaded_view().contains(id@),
    {
        self.loaded_position(id).is_some()
    }

    /// Ids of loaded models.
    pub fn get_loaded_models(&self) -> (r: Vec<String>)
        ensures
            string_views(r@).to_set() == self.loaded_view(),
    {
        let mut r: Vec<String> = Vec::new();
        let mut i: usize = 0;
        while i < self.loaded_models.len()
            invariant
                i <= self.loaded_models@.len(),
                string_views(r@) == string_views(self.loaded_models@).take(i as int),
            decreases self.loaded_models@.len() - i,
        {
            let ghost before = r@;
            let c = self.loaded_models[i].clone();
            r.push(c);
            proof {
                lemma_string_views_push(before, c);
                assert(string_views(self.loaded_models@).take(i + 1) =~= string_views(self.loaded_models@).take(
                    i as int).push(self.loaded_models@[i as int]@));
            }
            assert(string_views(r@) =~= string_views(self.loaded_models@).take(i + 1));
            i = i + 1;
        }
        assert(string_views(self.loaded_models@).take(self.loaded_models@.len() as int)
            =~= string_views(self.loaded_models@));
        r
    }

    /// Downloading is not provided: the request is accepted and nothing changes.
    pub fn download_model(&self, _request: DownloadModelRequest) -> (r: Result<(), ModelError>)
        ensures
            r is Ok,
    {
        Ok(())
    }

    fn loaded_position(&self, id: &str) -> (r: Option<usize>)
        ensures
            r matches Some(i) ==> i < self.loaded_models@.len() && self.loaded_models@[i as int]@ == id@,
            r is None ==> !self.loaded_view().contains(id@),
            r is Some ==> self.loaded_view().contains(id@),
    {
        let ghost lv = string_views(self.loaded_models@);
        let n = self.loaded_models.len();
        let mut i: usize = 0;
        while i < n
            invariant
                n == self.loaded_models@.len(),
                lv == string_views(self.loaded_models@),
                i <= n,
                forall|k: int| 0 <= k < i ==> lv[k] != id@,
            decreases n - i,
        {
            if str_eq(self.loaded_models[i].as_str(), id) {
                assert(lv[i as int] == id@);
                assert(lv.contains(id@));
                return Some(i);
            }
            i = i + 1;
        }
        proof {
            if lv.contains(id@) {
                let k = choose|k: int| 0 <= k < lv.len() && lv[k] == id@;
            }
        }
        None
    }

    fn add_loaded(&mut self, id: &str)
        ensures
            final(self).loaded_view() == old(self).loaded_view().insert(id@),
            final(self).models@ == old(self).models@,
    {
        proof {
            use_type_invariant(&*self);
        }
        if self.loaded_position(id).is_none() {
            let ghost lv = string_views(self.loaded_models@);
            let mut loaded: Vec<String> = Vec::new();
            std::mem::swap(&mut loaded, &mut self.loaded_models);
            loaded.push(id.to_owned());
            proof {
                let nv = string_views(loaded@);
                assert(nv =~= lv.push(id@));
                assert(!lv.contains(id@));
                assert forall|i: int, j: int| 0 <= i < j < loaded@.len() implies loaded@[i]@ != loaded@[j]@ by {
                    if j == lv.len() {
                        assert(lv[i] == loaded@[i]@);
                    }
                }
                assert forall|x: Seq<char>| #[trigger] nv.contains(x) <==> (lv.contains(x) || x == id@) by {
                    if lv.contains(x) {
                        let k = choose|k: int| 0 <= k < lv.len() && #[trigger] lv[k] == x;
                        assert(nv[k] == x);
                    }
                    if x == id@ {
                        assert(nv[lv.len() as int] == x);
                    }
                    if nv.contains(x) {
                        let k = choose|k: int| 0 <= k < nv.len() && #[trigger] nv[k] == x;
                        if k < lv.len() {
                            assert(lv[k] == x);
                        }
                    }
                }
                assert(string_views(loaded@).to_set() =~= old(self).loaded_view().insert(id@));
            }
            self.loaded_models = loaded;
        } else {
            assert(self.loaded_view() =~= old(self).loaded_view().insert(id@));
        }
    }

    fn remove_loaded(&mut self, id: &str)
        ensures
            final(self).loaded_view() == old(self).loaded_view().remove(id@),
            final(self).models@ == old(self).models@,
    {
        proof {
            use_type_invariant(&*self);
        }
        match self.loaded_position(id) {
            None => {
                assert(self.loaded_view() =~= old(self).loaded_view().remove(id@));
            },
            Some(i) => {
                let ghost lv = string_views(self.loaded_models@);
                let mut loaded: Vec<String> = Vec::new();
                std::mem::swap(&mut loaded, &mut self.loaded_models);
                loaded.remove(i);
                proof {
                    let nv = string_views(loaded@);
                    assert(nv =~= lv.remove(i as int));
                    assert forall|x: Seq<char>| #[trigger] nv.contains(x) <==> (lv.contains(x) && x != id@) by {
                        if nv.contains(x) {
                            let k = choose|k: int| 0 <= k < nv.len() && #[trigger] nv[k] == x;
                            if k < i {
                                assert(lv[k] == x);
                                assert(lv[k] != lv[i as int]);
                            } else {
                                assert(lv[k + 1] == x);
                                assert(lv[k + 1] != lv[i as int]);
                            }
                        }
                        if lv.contains(x) && x != id@ {
                            let k = choose|k: int| 0 <= k < lv.len() && #[trigger] lv[k] == x;
                            if k < i {
                                assert(nv[k] == x);
                            } else {
                                assert(k != i);
                                assert(nv[k - 1] == x);
                            }
                        }
                    }
                    assert(string_views(loaded@).to_set() =~= old(self).loaded_view().remove(id@));
                    assert forall|a: int, b: int| 0 <= a < b < loaded@.len() implies loaded@[a]@ != loaded@[b]@ by {
                        let a2 = if a < i { a } else { a + 1 };
                        let b2 = if b < i { b } else { b + 1 };
                        assert(loaded@[a]@ == lv[a2] && loaded@[b]@ == lv[b2]);
                    }
                }
                self.loaded_models = loaded;
            },
        }
    }
}

proof fn lemma_model_views_push(s: Seq<Model>, m: Model)
    ensures
        model_views(s.push(m)) == model_views(s).push(model_view(m)),
{
    assert(model_views(s.push(m)) =~= model_views(s).push(model_view(m)));
}

proof fn lemma_string_views_push(s: Seq<String>, x: String)
    ensures
        string_views(s.push(x)) == string_views(s).push(x@),
{
    assert(string_views(s.push(x)) =~= string_views(s).push(x@));
}

proof fn lemma_find_first(models: Seq<ModelView>, id: Seq<char>, i: int)
    requires
        0 <= i <= models.len(),
        forall|k: int| 0 <= k < i ==> models[k].id != id,
        i < models.len() ==> models[i].id == id,
    ensures
        find_model(models, id) == if i < models.len() { Some(models[i]) } else { None },
    decreases models.len(),
{
    if models.len() > 0 && i > 0 {
        lemma_find_first(models.drop_first(), id, i - 1);
    }
}

proof fn lemma_find_update(models: Seq<ModelView>, i: int, m: ModelView)
    requires
        0 <= i < models.len(),
        models[i].id == m.id,
        forall|k: int| 0 <= k < i ==> models[k].id != m.id,
    ensures
        forall|id: Seq<char>| #[trigger] find_model(models.update(i, m), id) == if id == m.id {
            Some(m)
        } else {
            find_model(models, id)
        },
{
    assert forall|id: Seq<char>| #[trigger] find_model(models.update(i, m), id) == if id == m.id {
        Some(m)
    } else {
        find_model(models, id)
    } by {
        lemma_find_update_one(models, i, m, id);
    }
}

proof fn lemma_find_update_one(models: Seq<ModelView>, i: int, m: ModelView, id: Seq<char>)
    requires
        0 <= i < models.len(),
        models[i].id == m.id,
        forall|k: int| 0 <= k < i ==> models[k].id != m.id,
    ensures
        find_model(models.update(i, m), id) == if id == m.id { Some(m) } else { find_model(models, id) },
    decreases models.len(),
{
    let u = models.update(i, m);
    if i > 0 {
        assert(u.drop_first() =~= models.drop_first().update(i - 1, m));
        assert(u[0] == models[0]);
        if models[0].id != id {
            lemma_find_update_one(models.drop_first(), i - 1, m, id);
        }
    } else {
        assert(u.drop_first() =~= models.drop_first());
        assert(u[0] == m);
    }
}

proof fn lemma_find_push(models: Seq<ModelView>, m: ModelView)
    requires
        forall|k: int| 0 <= k < models.len() ==> models[k].id != m.id,
    ensures
        forall|id: Seq<char>| #[trigger] find_model(models.push(m), id) == if id == m.id {
            Some(m)
        } else {
            find_model(models, id)
        },
{
    assert forall|id: Seq<char>| #[trigger] find_model(models.push(m), id) == if id == m.id {
        Some(m)
    } else {
        find_model(models, id)
    } by {
        lemma_find_push_one(models, m, id);
    }
}

proof fn lemma_find_push_one(models: Seq<ModelView>, m: ModelView, id: Seq<char>)
    requires
        forall|k: int| 0 <= k < models.len() ==> models[k].id != m.id,
    ensures
        find_model(models.push(m), id) == if id == m.id { Some(m) } else { find_model(models, id) },
    decreases models.len(),
{
    let p = models.push(m);
    if models.len() > 0 {
        assert(p.drop_first() =~= models.drop_first().push(m));
        assert(p[0] == models[0]);
        if models[0].id != id {
            assert forall|k: int| 0 <= k < models.drop_first().len() implies models.drop_first()[k].id != m.id by {
                assert(models.drop_first()[k] == models[k + 1]);
            }
            lemma_find_push_one(models.drop_first(), m, id);
            assert(find_model(p, id) == find_model(p.drop_first(), id));
        }
    } else {
        assert(p.drop_first() =~= Seq::<ModelView>::empty());
        assert(p[0] == m);
        assert(find_model(p.drop_first(), id) is None);
    }
}

} // verus!
