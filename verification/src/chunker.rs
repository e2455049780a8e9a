//! File chunking for the ingestion agent: type detection by file
//! extension, and the plain-text and Markdown chunkers. Chunkers that
//! parse structured or binary formats live with the host, next to the
//! crates that read those formats.

use crate::text;
use vstd::prelude::*;

verus! {

/// One chunk of a file, with its line range and a short context tag.
pub struct Chunk {
    pub content: String,
    pub start_line: usize,
    pub end_line: usize,
    pub context: String,
}

/// The file kinds the chunker distinguishes.
#[derive(Clone, Copy, Debug, PartialEq, Eq, Structural)]
pub enum ChunkerType {
    Python,
    Rust,
    TypeScript,
    JavaScript,
    Go,
    Html,
    Css,
    Php,
    Java,
    Markdown,
    Csv,
    Json,
    Yaml,
    Xml,
    Pdf,
    Office,
    Text,
}

/// The extension of a path: the text after the last dot of the last
/// segment, when the stem and the extension are both non-empty.
pub open spec fn ext_of(p: Seq<char>) -> Option<Seq<char>> {
    let name = text::split_spec(p, '/').last();
    let parts = text::split_spec(name, '.');
    if parts.len() >= 2 && parts[0].len() > 0 && parts.last().len() > 0 {
        Some(parts.last())
    } else {
        None
    }
}

/// Which chunker a path's extension selects.
pub open spec fn detect_type_spec(p: Seq<char>) -> ChunkerType {
    match ext_of(p) {
        Some(e) => {
            if e == "py"@ {
                ChunkerType::Python
            } else if e == "rs"@ {
                ChunkerType::Rust
            } else if e == "ts"@ || e == "tsx"@ {
                ChunkerType::TypeScript
            } else if e == "js"@ || e == "jsx"@ {
                ChunkerType::JavaScript
            } else if e == "go"@ {
                ChunkerType::Go
            } else if e == "html"@ || e == "htm"@ {
                ChunkerType::Html
            } else if e == "css"@ {
                ChunkerType::Css
            } else if e == "php"@ {
                ChunkerType::Php
            } else if e == "java"@ {
                ChunkerType::Java
            } else if e == "md"@ {
                ChunkerType::Markdown
            } else if e == "csv"@ {
                ChunkerType::Csv
            } else if e == "json"@ {
                ChunkerType::Json
            } else if e == "yaml"@ || e == "yml"@ {
                ChunkerType::Yaml
            } else if e == "xml"@ {
                ChunkerType::Xml
            } else if e == "pdf"@ {
                ChunkerType::Pdf
            } else if e == "docx"@ || e == "xlsx"@ || e == "pptx"@ {
                ChunkerType::Office
            } else {
                ChunkerType::Text
            }
        },
        None => ChunkerType::Text,
    }
}

pub struct Chunker {}

impl Chunker {
    /// Detect a file's kind from its path.
    pub fn detect_type(path: &str) -> (r: ChunkerType)
        ensures
            r == detect_type_spec(path@),
    {
        let pc = text::to_chars(path);
        let segs = text::split_chars(&pc, '/');
        proof {
            text::lemma_split_len(path@, '/');
        }
        let name = &segs[segs.len() - 1];
        proof {
            assert(name@ == text::split_spec(path@, '/').last());
        }
        let parts = text::split_chars(name, '.');
        proof {
            text::lemma_split_len(name@, '.');
        }
        if parts.len() < 2 {
            return ChunkerType::Text;
        }
        let stem = &parts[0];
        let ext = &parts[parts.len() - 1];
        proof {
            assert(stem@ == text::split_spec(name@, '.')[0]);
            assert(ext@ == text::split_spec(name@, '.').last());
        }
        if stem.len() == 0 || ext.len() == 0 {
            return ChunkerType::Text;
        }
        let e = text::to_string(ext);
        let es = e.as_str();
        if text::str_eq(es, "py") {
            ChunkerType::Python
        } else if text::str_eq(es, "rs") {
            ChunkerType::Rust
        } else if text::str_eq(es, "ts") || text::str_eq(es, "tsx") {
            ChunkerType::TypeScript
        } else if text::str_eq(es, "js") || text::str_eq(es, "jsx") {
            ChunkerType::JavaScript
        } else if text::str_eq(es, "go") {
            ChunkerType::Go
        } else if text::str_eq(es, "html") || text::str_eq(es, "htm") {
            ChunkerType::Html
        } else if text::str_eq(es, "css") {
            ChunkerType::Css
        } else if text::str_eq(es, "php") {
            ChunkerType::Php
        } else if text::str_eq(es, "java") {
            ChunkerType::Java
        } else if text::str_eq(es, "md") {
            ChunkerType::Markdown
        } else if text::str_eq(es, "csv") {
            ChunkerType::Csv
        } else if text::str_eq(es, "json") {
            ChunkerType::Json
        } else if text::str_eq(es, "yaml") || text::str_eq(es, "yml") {
            ChunkerType::Yaml
        } else if text::str_eq(es, "xml") {
            ChunkerType::Xml
        } else if text::str_eq(es, "pdf") {
            ChunkerType::Pdf
        } else if text::str_eq(es, "docx") || text::str_eq(es, "xlsx") || text::str_eq(
            es,
            "pptx",
        ) {
            ChunkerType::Office
        } else {
            ChunkerType::Text
        }
    }

    /// Split plain text into paragraph chunks at blank lines; every chunk
    /// holds text that does not trim to nothing.
    pub fn chunk_text(content: &str) -> (r: Vec<Chunk>)
        ensures
            forall|i: int|
                0 <= i < r@.len() ==> text::trim_spec((#[trigger] r@[i]).content@).len() > 0
                    && r@[i].start_line == 0 && r@[i].end_line == 0,
    {
        let cs = text::to_chars(content);
        let mut out: Vec<Chunk> = Vec::new();
        let mut cur: Vec<char> = Vec::new();
        let mut i: usize = 0;
        let mut para: u64 = 0;
        while i < cs.len()
            invariant
                i <= cs@.len(),
                forall|j: int|
                    0 <= j < out@.len() ==> text::trim_spec((#[trigger] out@[j]).content@).len()
                        > 0 && out@[j].start_line == 0 && out@[j].end_line == 0,
            decreases cs@.len() - i,
        {
            // a paragraph break: a newline followed by a newline
            if cs[i] == '\n' && i + 1 < cs.len() && cs[i + 1] == '\n' {
                para = Self::flush_paragraph(&mut out, &cur, para);
                cur = Vec::new();
                i = i + 2;
            } else {
                cur.push(cs[i]);
                i = i + 1;
            }
        }
        Self::flush_paragraph(&mut out, &cur, para);
        out
    }

    /// Keep a paragraph when it has visible text; hand back the next
    /// paragraph index.
    fn flush_paragraph(out: &mut Vec<Chunk>, cur: &Vec<char>, para: u64) -> (r: u64)
        requires
            forall|j: int|
                0 <= j < old(out)@.len() ==> text::trim_spec(
                    (#[trigger] old(out)@[j]).content@,
                ).len() > 0 && old(out)@[j].start_line == 0 && old(out)@[j].end_line == 0,
        ensures
            forall|j: int|
                0 <= j < final(out)@.len() ==> text::trim_spec(
                    (#[trigger] final(out)@[j]).content@,
                ).len() > 0 && final(out)@[j].start_line == 0 && final(out)@[j].end_line == 0,
    {
        let trimmed = text::trim_chars(cur);
        if trimmed.len() == 0 {
            return para;
        }
        let mut context = String::new();
        context.append("para:");
        let pd = text::dec_chars(para);
        let pds = text::to_string(&pd);
        context.append(pds.as_str());
        let ghost before = out@;
        out.push(
            Chunk { content: text::to_string(cur), start_line: 0, end_line: 0, context },
        );
        proof {
            assert(out@.drop_last() =~= before);
            assert(out@.last().content@ == cur@);
        }
        if para < u64::MAX {
            para + 1
        } else {
            para
        }
    }

    /// Split Markdown into header-delimited blocks. Every chunk's line
    /// range is within the text and ordered.
    pub fn chunk_markdown(content: &str) -> (r: Vec<Chunk>)
        ensures
            forall|i: int|
                0 <= i < r@.len() ==> 1 <= (#[trigger] r@[i]).start_line && r@[i].start_line
                    <= r@[i].end_line,
    {
        let cs = text::to_chars(content);
        let lines = text::split_chars(&cs, '\n');
        let mut out: Vec<Chunk> = Vec::new();
        let mut block: Vec<char> = Vec::new();
        let mut block_len: usize = 0;
        let mut current_start: usize = 1;
        let mut header: String = String::new();
        header.append("root");
        let mut i: usize = 0;
        while i < lines.len()
            invariant
                i <= lines@.len(),
                block_len <= i,
                1 <= current_start,
                current_start <= i + 1,
                forall|j: int|
                    0 <= j < out@.len() ==> 1 <= (#[trigger] out@[j]).start_line && out@[
                        j
                    ].start_line <= out@[j].end_line,
            decreases lines@.len() - i,
        {
            let line = &lines[i];
            let is_header = line.len() > 0 && line[0] == '#';
            if is_header {
                if block_len > 0 {
                    let ghost before = out@;
                    let hdr_copy = copy_string(&header);
                    out.push(
                        Chunk {
                            content: text::to_string(&block),
                            start_line: current_start,
                            end_line: if i < 1 {
                                current_start
                            } else if i < current_start {
                                current_start
                            } else {
                                i
                            },
                            context: hdr_copy,
                        },
                    );
                    proof {
                        assert(out@.drop_last() =~= before);
                    }
                    block = Vec::new();
                    block_len = 0;
                }
                if i < usize::MAX {
                    current_start = i + 1;
                }
                // the header text, without the leading marks and spaces
                let mut t: usize = 0;
                while t < line.len() && line[t] == '#'
                    invariant
                        t <= line@.len(),
                    decreases line@.len() - t,
                {
                    t = t + 1;
                }
                let mut rest: Vec<char> = Vec::new();
                let mut u: usize = t;
                while u < line.len()
                    invariant
                        t <= u <= line@.len(),
                    decreases line@.len() - u,
                {
                    rest.push(line[u]);
                    u = u + 1;
                }
                let trimmed = text::trim_chars(&rest);
                header = text::to_string(&trimmed);
            }
            // the line joins the current block either way
            let mut u2: usize = 0;
            if block_len > 0 {
                block.push('\n');
            }
            while u2 < line.len()
                invariant
                    u2 <= line@.len(),
                decreases line@.len() - u2,
            {
                block.push(line[u2]);
                u2 = u2 + 1;
            }
            block_len = block_len + 1;
            i = i + 1;
        }
        if block_len > 0 {
            let ghost before = out@;
            let end = if lines.len() >= current_start {
                lines.len()
            } else {
                current_start
            };
            out.push(
                Chunk {
                    content: text::to_string(&block),
                    start_line: current_start,
                    end_line: end,
                    context: header,
                },
            );
            proof {
                assert(out@.drop_last() =~= before);
            }
        }
        out
    }
}

/// A copy of a string.
fn copy_string(s: &String) -> (r: String)
    ensures
        r@ == s@,
{
    let mut t = String::new();
    t.append(s.as_str());
    t
}

} // verus!
