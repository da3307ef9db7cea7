//! Vision-language model (VLM) integration for scanned documents, images and
//! complex layouts: a VLM reads a rendered page and emits structured data.
//! Implement [`VisionLanguageModel`] to plug one in.

use vstd::prelude::*;
use crate::models::{ExtractionResult, KeyValueSet};

verus! {

/// Error from a VLM call.
#[derive(Debug)]
pub enum VlmError {
    NotConfigured(String),
    Request(String),
    Parse(String),
}

impl VlmError {
    /// The error as a message.
    pub fn message(&self) -> (r: String)
        ensures
            r@ == vlm_error_message(*self),
    {
        match self {
            VlmError::NotConfigured(m) => {
                let mut s = "VLM provider not configured: ".to_owned();
                s.append(m.as_str());
                proof {
                    reveal_strlit("VLM provider not configured: ");
                }
                s
            },
            VlmError::Request(m) => {
                let mut s = "VLM request failed: ".to_owned();
                s.append(m.as_str());
                proof {
                    reveal_strlit("VLM request failed: ");
                }
                s
            },
            VlmError::Parse(m) => {
                let mut s = "VLM returned invalid response: ".to_owned();
                s.append(m.as_str());
                proof {
                    reveal_strlit("VLM returned invalid response: ");
                }
                s
            },
        }
    }
}

/// The message of a VLM error.
pub open spec fn vlm_error_message(e: VlmError) -> Seq<char> {
    match e {
        VlmError::NotConfigured(m) => "VLM provider not configured: "@ + m@,
        VlmError::Request(m) => "VLM request failed: "@ + m@,
        VlmError::Parse(m) => "VLM returned invalid response: "@ + m@,
    }
}

/// A vision-language model that extracts structured data from a rendered page.
pub trait VisionLanguageModel: Send + Sync {
    /// A human-readable name for logging and metrics.
    fn name(&self) -> &'static str;

    /// Extract structured data from one page image (PNG or JPEG bytes),
    /// optionally guided by a JSON description of the expected fields.
    fn extract_page(&self, page_image: &[u8], schema_hint: Option<&str>) -> Result<ExtractionResult, VlmError>;

    /// Extract from several pages, one result per page; the first error
    /// ends the run. Each page is handed to `extract_page` as it is, with the
    /// same schema hint; the results come back in page order, and an error is
    /// one that `extract_page` gave for some page. With no pages there is
    /// nothing to call, and the result is an empty list.
    fn extract_pages(&self, pages: &[Vec<u8>], schema_hint: Option<&str>) -> (r: Result<Vec<ExtractionResult>, VlmError>)
        ensures
            r matches Ok(v) ==> v@.len() == pages@.len(),
            pages@.len() == 0 ==> (r matches Ok(v) && v@.len() == 0),
            r matches Ok(v) ==> forall|j: int, s: &[u8]| 0 <= j < v@.len() && s@ == pages@[j]@
                ==> #[trigger] call_ensures(Self::extract_page, (self, s, schema_hint), Ok::<ExtractionResult, VlmError>(v@[j])),
            r matches Err(e) ==> exists|k: int, s: &[u8]|
                #![trigger pages@[k], call_ensures(Self::extract_page, (self, s, schema_hint), Err::<ExtractionResult, VlmError>(e))]
                0 <= k < pages@.len() && s@ == pages@[k]@ && call_ensures(
                    Self::extract_page,
                    (self, s, schema_hint),
                    Err::<ExtractionResult, VlmError>(e),
                ),
    {
        let mut out: Vec<ExtractionResult> = Vec::new();
        let mut i: usize = 0;
        while i < pages.len()
            invariant
                i <= pages@.len(),
                out@.len() == i,
                forall|j: int, s: &[u8]| 0 <= j < i && s@ == pages@[j]@
                    ==> #[trigger] call_ensures(Self::extract_page, (self, s, schema_hint), Ok::<ExtractionResult, VlmError>(out@[j])),
            decreases pages@.len() - i,
        {
            let page = pages[i].as_slice();
            let res = self.extract_page(page, schema_hint);
            match res {
                Ok(r) => {
                    let ghost before = out@;
                    out.push(r);
                    assert forall|j: int, s: &[u8]| 0 <= j < i + 1 && s@ == pages@[j]@
                        implies #[trigger] call_ensures(Self::extract_page, (self, s, schema_hint), Ok::<ExtractionResult, VlmError>(out@[j])) by {
                        if j < i {
                            assert(out@[j] == before[j]);
                        } else {
                            assert(s == page);
                        }
                    }
                },
                Err(e) => {
                    assert(page@ == pages@[i as int]@);
                    assert(call_ensures(Self::extract_page, (self, page, schema_hint), Err::<ExtractionResult, VlmError>(e)));
                    return Err(e);
                },
            }
            i += 1;
        }
        Ok(out)
    }
}

/// A key-less, offline VLM stand-in. It cannot see images; it returns an
/// empty result marked as such, so downstream code runs end to end.
pub struct LocalVlm;

impl Default for LocalVlm {
    fn default() -> Self {
        LocalVlm
    }
}

/// The provider label of the offline stand-in's results.
pub open spec fn local_vlm_provider() -> Seq<char> {
    "local-vlm-stub (no OCR performed)"@
}

impl VisionLanguageModel for LocalVlm {
    fn name(&self) -> (r: &'static str)
        ensures
            r@ == "local-vlm-stub"@,
    {
        "local-vlm-stub"
    }

    fn extract_page(&self, _page_image: &[u8], _schema_hint: Option<&str>) -> (r: Result<ExtractionResult, VlmError>)
        ensures
            r matches Ok(res) && res.tables@.len() == 0 && res.key_values.fields@.len() == 0
                && res.entities@.len() == 0 && res.field_count == 0 && res.confidence == 0
                && res.provider@ == local_vlm_provider(),
    {
        Ok(
            ExtractionResult {
                tables: Vec::new(),
                key_values: KeyValueSet::default(),
                entities: Vec::new(),
                field_count: 0,
                confidence: 0,
                provider: "local-vlm-stub (no OCR performed)".to_owned(),
            },
        )
    }
}

/// An HTTP-backed VLM provider, configured by endpoint, API key and model
/// name (read from `OPENDOCU_VLM_ENDPOINT`, `OPENDOCU_VLM_API_KEY` and
/// `OPENDOCU_VLM_MODEL` by the application). The request itself is not
/// implemented yet.
pub struct HttpVlm {
    pub endpoint: Option<String>,
    pub api_key: Option<String>,
    pub model: Option<String>,
}

/// The message of an unconfigured HTTP VLM.
pub open spec fn http_vlm_unconfigured() -> Seq<char> {
    "Set OPENDOCU_VLM_ENDPOINT and OPENDOCU_VLM_API_KEY"@
}

/// The message of a configured HTTP VLM.
pub open spec fn http_vlm_unimplemented() -> Seq<char> {
    "HTTP VLM call not yet implemented"@
}

impl HttpVlm {
    /// A provider from its settings.
    pub fn new(endpoint: Option<String>, api_key: Option<String>, model: Option<String>) -> (v: Self)
        ensures
            v.endpoint == endpoint,
            v.api_key == api_key,
            v.model == model,
    {
        HttpVlm { endpoint, api_key, model }
    }

    /// Both an endpoint and an API key are set.
    pub fn is_configured(&self) -> (r: bool)
        ensures
            r == (self.endpoint is Some && self.api_key is Some),
    {
        self.endpoint.is_some() && self.api_key.is_some()
    }
}

impl VisionLanguageModel for HttpVlm {
    fn name(&self) -> (r: &'static str)
        ensures
            r@ == "http-vlm"@,
    {
        "http-vlm"
    }

    fn extract_page(&self, page_image: &[u8], schema_hint: Option<&str>) -> (r: Result<ExtractionResult, VlmError>)
        ensures
            !(self.endpoint is Some && self.api_key is Some) ==> (r matches Err(VlmError::NotConfigured(m))
                && m@ == http_vlm_unconfigured()),
            (self.endpoint is Some && self.api_key is Some) ==> (r matches Err(VlmError::Request(m)) && m@
                == http_vlm_unimplemented()),
    {
        if !self.is_configured() {
            return Err(VlmError::NotConfigured("Set OPENDOCU_VLM_ENDPOINT and OPENDOCU_VLM_API_KEY".to_owned()));
        }
        let _ = (page_image, schema_hint);
        Err(VlmError::Request("HTTP VLM call not yet implemented".to_owned()))
    }
}

} // verus!
