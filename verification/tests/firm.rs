use orakel::firm::{message_doc, split_entries};
use orakel::render::{badge, markdown};

#[test]
fn decision_log_entries() {
    let src = "Preamble.\n## 2026-07-25 — Execution layer built\nBody line\n---\nmore\n## 2026-07-26-notes\nx\n## Untitled\n";
    let e = split_entries(src);
    assert_eq!(e.len(), 3);
    assert_eq!(e[0], ("2026-07-25".to_string(), "Execution layer built".to_string(), "Body line\nmore\n".to_string()));
    assert_eq!(e[1].0, "2026-07-26");
    assert_eq!(e[1].1, "notes");
    assert_eq!(e[1].2, "x\n");
    assert_eq!(e[2], (String::new(), "Untitled".to_string(), String::new()));
}

#[test]
fn inbox_message_document() {
    let src = "---\nsubject: Hello <you>\nstatus: open\nfrom: ceo\nto: felix\ndate: 2026-07-25\ntags: [a, \"b\", ]\nnote: plain\n---\nBody *text*.\n";
    let html = message_doc("2026-07-25-hello.md", src);
    assert!(html.starts_with("<details class=\"doc\"><summary><span class=\"doc-title\">Hello &lt;you&gt;"));
    assert!(html.contains(&badge("open", "warn")));
    assert!(html.contains("ceo → felix · 2026-07-25 · <span class=\"mono\">2026-07-25-hello.md</span>"));
    assert!(html.contains("<div class=\"rows\"><div class=\"row\"><span class=\"k\">tags</span><span class=\"v\"><div class=\"chip-row\"><span class=\"chip\">a</span><span class=\"chip\">b</span></div></span></div>"));
    assert!(html.contains("<span class=\"k\">note</span><span class=\"v\">plain</span>"));
    assert!(html.contains(&format!("<div class=\"prose\">{}</div>", markdown("Body *text*.\n"))));
    let bare = message_doc("x.md", "just text");
    assert!(bare.contains("<span class=\"doc-title\">x.md</span>"));
    assert!(bare.contains("<span class=\"doc-meta\"><span class=\"mono\">x.md</span></span>"));
}
