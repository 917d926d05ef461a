//! The page shell: the navigation tree (the information architecture, in one
//! place), which entries a route lights up, breadcrumbs resolved against
//! it, the settings popover, and the full page around a body.
use vstd::prelude::*;

use crate::render::{
    escaped, icon, icon_sized, icon_sized_svg, icon_svg, push_esc, wordmark, wordmark_html, Crumb,
    Freshness,
};
use crate::shell::{banner_html, fetch_error_banner};
use crate::text::{
    first_index, lemma_first_index_is, lemma_first_index_none, owned, starts_with, str_eq,
    str_starts_with,
};

verus! {

// ---------------------------------------------------------------------------
// The navigation tree
// ---------------------------------------------------------------------------

/// One sidebar entry. `owns` are the route prefixes of the detail views that
/// also light it up.
pub struct NavLink {
    pub href: &'static str,
    pub label: &'static str,
    pub icon: &'static str,
    pub owns: Vec<&'static str>,
}

/// A sidebar section.
pub struct NavGroup {
    pub id: &'static str,
    pub label: &'static str,
    pub links: Vec<NavLink>,
}

/// A link as (href, label, icon, owned prefixes).
pub open spec fn link_view(l: NavLink) -> (Seq<char>, Seq<char>, Seq<char>, Seq<Seq<char>>) {
    (l.href@, l.label@, l.icon@, l.owns@.map_values(|p: &'static str| p@))
}

pub open spec fn links_view(ls: Seq<NavLink>) -> Seq<(Seq<char>, Seq<char>, Seq<char>, Seq<Seq<char>>)> {
    ls.map_values(|l: NavLink| link_view(l))
}

/// A group as (id, label, links).
pub open spec fn group_view(g: NavGroup) -> (
    Seq<char>,
    Seq<char>,
    Seq<(Seq<char>, Seq<char>, Seq<char>, Seq<Seq<char>>)>,
) {
    (g.id@, g.label@, links_view(g.links@))
}

pub open spec fn nav_view(gs: Seq<NavGroup>) -> Seq<
    (Seq<char>, Seq<char>, Seq<(Seq<char>, Seq<char>, Seq<char>, Seq<Seq<char>>)>),
> {
    gs.map_values(|g: NavGroup| group_view(g))
}

/// Overview · Research · Data · Firm · Development, and their pages.
pub open spec fn nav_spec() -> Seq<
    (Seq<char>, Seq<char>, Seq<(Seq<char>, Seq<char>, Seq<char>, Seq<Seq<char>>)>),
> {
    seq![
        (
            "overview"@,
            "Overview"@,
            seq![
                ("/"@, "Dashboard"@, "gauge"@, Seq::empty()),
                ("/runs"@, "Daily runs"@, "calendar"@, seq!["/runs/"@]),
                ("/backtest"@, "Backtest"@, "play"@, seq!["/backtest/"@]),
                ("/execution"@, "Paper book"@, "layers"@, Seq::empty()),
            ],
        ),
        (
            "research"@,
            "Research"@,
            seq![
                ("/strategies"@, "Strategies"@, "flask"@, seq!["/strategies/"@]),
                ("/ideas"@, "Ideas"@, "bulb"@, Seq::empty()),
                ("/predictions"@, "Predictions"@, "list"@, seq!["/markets/"@]),
            ],
        ),
        ("data"@, "Data"@, seq![("/snapshots"@, "Snapshots"@, "database"@, seq!["/snapshots/"@])]),
        (
            "firm"@,
            "Firm"@,
            seq![
                ("/state"@, "State"@, "settings"@, Seq::empty()),
                ("/decisions"@, "Decisions"@, "gavel"@, Seq::empty()),
                ("/inboxes"@, "Inboxes"@, "inbox"@, Seq::empty()),
                ("/wiki"@, "Wiki"@, "book"@, seq!["/wiki/"@]),
            ],
        ),
        (
            "development"@,
            "Development"@,
            seq![
                ("/dev"@, "Charts"@, "chart"@, Seq::empty()),
                ("/dev/endpoints"@, "Endpoints"@, "plug"@, Seq::empty()),
            ],
        ),
    ]
}

fn link(href: &'static str, label: &'static str, icon: &'static str, owns: Vec<&'static str>) -> (r: NavLink)
    ensures
        r.href == href,
        r.label == label,
        r.icon == icon,
        r.owns == owns,
{
    NavLink { href, label, icon, owns }
}

/// The navigation tree.
pub fn nav() -> (r: Vec<NavGroup>)
    ensures
        nav_view(r@) == nav_spec(),
{
    let overview = NavGroup {
        id: "overview",
        label: "Overview",
        links: vec![
            link("/", "Dashboard", "gauge", vec![]),
            link("/runs", "Daily runs", "calendar", vec!["/runs/"]),
            link("/backtest", "Backtest", "play", vec!["/backtest/"]),
            link("/execution", "Paper book", "layers", vec![]),
        ],
    };
    let research = NavGroup {
        id: "research",
        label: "Research",
        links: vec![
            link("/strategies", "Strategies", "flask", vec!["/strategies/"]),
            link("/ideas", "Ideas", "bulb", vec![]),
            link("/predictions", "Predictions", "list", vec!["/markets/"]),
        ],
    };
    let data = NavGroup {
        id: "data",
        label: "Data",
        links: vec![link("/snapshots", "Snapshots", "database", vec!["/snapshots/"])],
    };
    let firm = NavGroup {
        id: "firm",
        label: "Firm",
        links: vec![
            link("/state", "State", "settings", vec![]),
            link("/decisions", "Decisions", "gavel", vec![]),
            link("/inboxes", "Inboxes", "inbox", vec![]),
            link("/wiki", "Wiki", "book", vec!["/wiki/"]),
        ],
    };
    let development = NavGroup {
        id: "development",
        label: "Development",
        links: vec![
            link("/dev", "Charts", "chart", vec![]),
            link("/dev/endpoints", "Endpoints", "plug", vec![]),
        ],
    };
    proof {
        assert(group_view(overview) =~~= nav_spec()[0]);
        assert(group_view(research) =~~= nav_spec()[1]);
        assert(group_view(data) =~~= nav_spec()[2]);
        assert(group_view(firm) =~~= nav_spec()[3]);
        assert(group_view(development) =~~= nav_spec()[4]);
    }
    let r = vec![overview, research, data, firm, development];
    proof {
        assert(nav_view(r@) =~= nav_spec());
    }
    r
}

/// A route lights a link up: its own address, or under one of its prefixes.
pub open spec fn link_active(l: (Seq<char>, Seq<char>, Seq<char>, Seq<Seq<char>>), path: Seq<char>) -> bool {
    l.0 == path || exists|k: int| 0 <= k < l.3.len() && starts_with(path, #[trigger] l.3[k])
}

pub fn link_is_active(link: &NavLink, path: &str) -> (r: bool)
    ensures
        r == link_active(link_view(*link), path@),
{
    let ghost lv = link_view(*link);
    if str_eq(link.href, path) {
        return true;
    }
    let mut k: usize = 0;
    while k < link.owns.len()
        invariant
            k <= link.owns@.len(),
            lv == link_view(*link),
            forall|j: int| 0 <= j < k ==> !starts_with(path@, #[trigger] lv.3[j]),
        decreases link.owns.len() - k,
    {
        proof {
            assert(lv.3[k as int] == link.owns@[k as int]@);
        }
        if str_starts_with(path, link.owns[k]) {
            return true;
        }
        k += 1;
    }
    false
}

pub open spec fn label_at(
    ls: Seq<(Seq<char>, Seq<char>, Seq<char>, Seq<Seq<char>>)>,
    label: Seq<char>,
) -> spec_fn(int) -> bool {
    |i: int| ls[i].1 == label
}

/// Destination for a breadcrumb given only its label: a section's first page,
/// or a nav item's own route; empty when the label names neither.
pub open spec fn nav_href_of(
    gs: Seq<(Seq<char>, Seq<char>, Seq<(Seq<char>, Seq<char>, Seq<char>, Seq<Seq<char>>)>)>,
    label: Seq<char>,
) -> Seq<char>
    decreases gs.len(),
{
    if gs.len() == 0 {
        Seq::empty()
    } else if gs[0].1 == label {
        if gs[0].2.len() > 0 {
            gs[0].2[0].0
        } else {
            Seq::empty()
        }
    } else {
        match first_index(gs[0].2.len() as int, label_at(gs[0].2, label)) {
            Some(i) => gs[0].2[i].0,
            None => nav_href_of(gs.drop_first(), label),
        }
    }
}

/// The first link of `links` labelled `label`.
fn find_label(links: &Vec<NavLink>, label: &str) -> (r: Option<usize>)
    ensures
        match r {
            Some(i) => i < links@.len() && first_index(
                links@.len() as int,
                label_at(links_view(links@), label@),
            ) == Some(i as int) && links_view(links@)[i as int].0 == links@[i as int].href@,
            None => first_index(links@.len() as int, label_at(links_view(links@), label@)) is None,
        },
{
    let ghost lv = links_view(links@);
    let ghost p = label_at(lv, label@);
    let mut i: usize = 0;
    while i < links.len()
        invariant
            i <= links@.len(),
            lv == links_view(links@),
            p == label_at(lv, label@),
            forall|j: int| 0 <= j < i ==> !#[trigger] p(j),
        decreases links.len() - i,
    {
        if str_eq(links[i].label, label) {
            proof {
                lemma_first_index_is(lv.len() as int, p, i as int);
            }
            return Some(i);
        }
        i += 1;
    }
    proof {
        lemma_first_index_none(lv.len() as int, p);
    }
    None
}

pub fn nav_href(groups: &[NavGroup], label: &str) -> (r: String)
    ensures
        r@ == nav_href_of(nav_view(groups@), label@),
{
    let ghost gv = nav_view(groups@);
    let mut gi: usize = 0;
    proof {
        assert(gv.skip(0) =~= gv);
    }
    while gi < groups.len()
        invariant
            gi <= groups@.len(),
            gv == nav_view(groups@),
            nav_href_of(gv, label@) == nav_href_of(gv.skip(gi as int), label@),
        decreases groups.len() - gi,
    {
        let g = &groups[gi];
        let ghost rest = gv.skip(gi as int);
        proof {
            assert(rest[0] == group_view(*g));
            assert(rest.drop_first() =~= gv.skip(gi + 1));
        }
        if str_eq(g.label, label) {
            if g.links.len() > 0 {
                return owned(g.links[0].href);
            }
            return String::new();
        }
        match find_label(&g.links, label) {
            Some(i) => {
                return owned(g.links[i].href);
            },
            None => {},
        }
        gi += 1;
    }
    proof {
        assert(gv.skip(groups@.len() as int) =~= Seq::<(Seq<char>, Seq<char>, Seq<(Seq<char>, Seq<char>, Seq<char>, Seq<Seq<char>>)>)>::empty());
    }
    String::new()
}

// ---------------------------------------------------------------------------
// The page around a body
// ---------------------------------------------------------------------------

/// The fixed text of the page shell, between the parts that vary.
pub const SHELL_0: &'static str = r#"<!doctype html>
<html lang="en">
<head>
<meta charset="utf-8">
<meta name="viewport" content="width=device-width, initial-scale=1">
<meta name="robots" content="noindex">
<title>"#;

pub const SHELL_1: &'static str = r#" — orakel</title>
<link rel="icon" type="image/svg+xml" href="/favicon.svg">
<link rel="stylesheet" href="/style.css">
<script>try{var t=localStorage.getItem("orakel-theme");if(t==="dark"||t==="light")document.documentElement.setAttribute("data-theme",t);var d=localStorage.getItem("orakel-density");if(d==="compact")document.documentElement.setAttribute("data-density","compact");}catch(e){}</script>
</head>
<body>
<div class="shell">
  <input type="checkbox" id="nav-toggle" class="nav-toggle">
  <aside class="sidebar">
    <div class="sidebar-top">
      "#;

pub const SHELL_2: &'static str = r#"
    </div>
    <nav class="nav" id="nav">"#;

pub const SHELL_3: &'static str = r#"</nav>
    <div class="sidebar-foot">
      <button type="button" class="settings-btn" popovertarget="settings-pop">"#;

pub const SHELL_4: &'static str = r#"<span>Settings</span></button>
    </div>
  </aside>
  <div class="main">
    <div class="topbar">
      "#;

pub const SHELL_5: &'static str = r#"
      <nav class="crumbs" aria-label="Breadcrumb">"#;

pub const SHELL_6: &'static str = r#"</nav>
      <div class="topbar-right">
        <span class="updated" title="Data freshness"><span class=""#;

pub const SHELL_7: &'static str = r#""></span>"#;

pub const SHELL_8: &'static str = r#""#;

pub const SHELL_9: &'static str = r#"</span>
        <label class="burger" for="nav-toggle" aria-label="Toggle navigation">"#;

pub const SHELL_10: &'static str = r#"</label>
      </div>
    </div>
"#;

pub const SHELL_11: &'static str = r#"
    <main class="content">
"#;

pub const SHELL_12: &'static str = r#""#;

pub const SHELL_13: &'static str = r#"
    </main>
    <footer class="footer">
      <span>orakel — agentic prediction-market research firm</span>
      <span class="num">worker built "#;

pub const SHELL_14: &'static str = r#"</span>
      <!-- reads: "#;

pub const SHELL_15: &'static str = r#" -->
    </footer>
  </div>
</div>
"#;

pub const SHELL_16: &'static str = r#"
<script>
(function () {
  var root = document.documentElement;
  function store(k, v) { try { localStorage.setItem(k, v); } catch (e) {} }
  function read(k) { try { return localStorage.getItem(k); } catch (e) { return null; } }

  /* Sidebar groups: expanded/collapsed per section, remembered in
     localStorage. The group holding the active route is always expanded.
     Without JS every group stays open — nothing is unreachable. */
  var nav = document.getElementById("nav");
  var groups = nav ? nav.querySelectorAll(".nav-group") : [];
  function setGroup(g, open, persist) {
    var head = g.querySelector(".nav-group-head");
    head.setAttribute("aria-expanded", open ? "true" : "false");
    if (persist) store("orakel-nav:" + g.getAttribute("data-group"), open ? "1" : "0");
  }
  for (var i = 0; i < groups.length; i++) (function (g) {
    var open = true;
    if (g.getAttribute("data-active") !== "1") {
      var saved = read("orakel-nav:" + g.getAttribute("data-group"));
      if (saved !== null) open = saved === "1";
    }
    setGroup(g, open, false);
    g.querySelector(".nav-group-head").addEventListener("click", function () {
      var head = g.querySelector(".nav-group-head");
      setGroup(g, head.getAttribute("aria-expanded") !== "true", true);
    });
  })(groups[i]);

  /* Settings: theme (light / dark / SYSTEM — the default) and density, both
     persisted. "system" removes the attribute so the stylesheet's
     prefers-color-scheme block takes over; charts.js re-renders on both. */
  function currentTheme() {
    var t = read("orakel-theme");
    return t === "dark" || t === "light" ? t : "system";
  }
  function currentDensity() {
    return read("orakel-density") === "compact" ? "compact" : "comfortable";
  }
  function mark(sel, attr, value) {
    var btns = document.querySelectorAll(sel + " [" + attr + "]");
    for (var i = 0; i < btns.length; i++)
      btns[i].setAttribute("aria-pressed", btns[i].getAttribute(attr) === value ? "true" : "false");
  }
  function applyTheme(v) {
    if (v === "dark" || v === "light") root.setAttribute("data-theme", v);
    else root.removeAttribute("data-theme");
    mark('#seg-theme', 'data-theme-set', v);
  }
  function applyDensity(v) {
    if (v === "compact") root.setAttribute("data-density", "compact");
    else root.removeAttribute("data-density");
    mark('#seg-density', 'data-density-set', v);
  }
  applyTheme(currentTheme());
  applyDensity(currentDensity());

  document.addEventListener("click", function (e) {
    var t = e.target.closest ? e.target.closest("[data-theme-set],[data-density-set],[data-nav-all]") : null;
    if (!t) return;
    if (t.hasAttribute("data-theme-set")) {
      var v = t.getAttribute("data-theme-set");
      store("orakel-theme", v);
      applyTheme(v);
    } else if (t.hasAttribute("data-density-set")) {
      var d = t.getAttribute("data-density-set");
      store("orakel-density", d);
      applyDensity(d);
    } else {
      var open = t.getAttribute("data-nav-all") === "1";
      for (var i = 0; i < groups.length; i++) setGroup(groups[i], open, true);
    }
  });
})();
</script>
</body>
</html>"#;

pub const POP_0: &'static str = r#"<div id="settings-pop" popover class="pop" aria-label="Settings">
  <div class="pop-group">
    <div class="pop-label">Theme</div>
    <div class="seg" id="seg-theme" role="group" aria-label="Colour theme">
      <button type="button" data-theme-set="light">"#;

pub const POP_1: &'static str = r#"<span>Light</span></button>
      <button type="button" data-theme-set="dark">"#;

pub const POP_2: &'static str = r#"<span>Dark</span></button>
      <button type="button" data-theme-set="system">"#;

pub const POP_3: &'static str = r#"<span>System</span></button>
    </div>
  </div>
  <div class="pop-group">
    <div class="pop-label">Density</div>
    <div class="seg" id="seg-density" role="group" aria-label="Row density">
      <button type="button" data-density-set="comfortable"><span>Comfortable</span></button>
      <button type="button" data-density-set="compact"><span>Compact</span></button>
    </div>
  </div>
  <div class="pop-group">
    <div class="pop-label">Sidebar sections</div>
    <div class="seg" role="group" aria-label="Sidebar sections">
      <button type="button" data-nav-all="1"><span>Expand all</span></button>
      <button type="button" data-nav-all="0"><span>Collapse all</span></button>
    </div>
  </div>
  <div class="pop-links">
    <a href="https://github.com/felix-andreas/orakel" target="_blank" rel="noreferrer">"#;

pub const POP_4: &'static str = r#"<span>Repository</span></a>
    <a href="/dev/endpoints">"#;

pub const POP_5: &'static str = r#"<span>Endpoints</span></a>
  </div>
  <noscript><p class="pop-note">These settings need JavaScript. Without it the page follows your system colour scheme and every sidebar section stays open.</p></noscript>
</div>"#;

/// The settings popover: theme, density, sidebar sections, and links.
pub open spec fn popover_html() -> Seq<char> {
    POP_0@ + icon_svg("sun"@) + POP_1@ + icon_svg("moon"@) + POP_2@ + icon_svg("monitor"@)
        + POP_3@ + icon_svg("external"@) + POP_4@ + icon_svg("plug"@) + POP_5@
}

pub fn settings_popover() -> (r: String)
    ensures
        r@ == popover_html(),
{
    let mut out = owned(POP_0);
    out.append(icon("sun").as_str());
    out.append(POP_1);
    out.append(icon("moon").as_str());
    out.append(POP_2);
    out.append(icon("monitor").as_str());
    out.append(POP_3);
    out.append(icon("external").as_str());
    out.append(POP_4);
    out.append(icon("plug").as_str());
    out.append(POP_5);
    out
}

/// One sidebar link; the current route's is marked.
pub open spec fn link_html(l: (Seq<char>, Seq<char>, Seq<char>, Seq<Seq<char>>), active: Seq<char>) -> Seq<char> {
    "<a href=\""@ + l.0 + "\""@ + (if link_active(l, active) {
        " aria-current=\"page\""@
    } else {
        Seq::empty()
    }) + ">"@ + icon_svg(l.2) + "<span>"@ + escaped(l.1) + "</span></a>"@
}

pub open spec fn links_html(ls: Seq<(Seq<char>, Seq<char>, Seq<char>, Seq<Seq<char>>)>, active: Seq<char>) -> Seq<char>
    decreases ls.len(),
{
    if ls.len() == 0 {
        Seq::empty()
    } else {
        links_html(ls.drop_last(), active) + link_html(ls.last(), active)
    }
}

/// Whether some link of the group is lit by the route.
pub open spec fn group_active(ls: Seq<(Seq<char>, Seq<char>, Seq<char>, Seq<Seq<char>>)>, active: Seq<char>) -> bool {
    exists|k: int| 0 <= k < ls.len() && #[trigger] link_active(ls[k], active)
}

/// A collapsible sidebar group; the one holding the route says so.
pub open spec fn group_html(
    g: (Seq<char>, Seq<char>, Seq<(Seq<char>, Seq<char>, Seq<char>, Seq<Seq<char>>)>),
    active: Seq<char>,
) -> Seq<char> {
    "<div class=\"nav-group\" data-group=\""@ + g.0 + "\" data-active=\""@ + (if group_active(
        g.2,
        active,
    ) {
        "1"@
    } else {
        "0"@
    }) + "\">\n<button type=\"button\" class=\"nav-group-head\" aria-expanded=\"true\" aria-controls=\"nav-"@
        + g.0 + "\"><span class=\"chev\">"@ + icon_svg("chevron"@) + "</span>"@ + escaped(g.1)
        + "</button>\n<div class=\"nav-items\" id=\"nav-"@ + g.0 + "\">"@ + links_html(g.2, active)
        + "</div>\n</div>"@
}

pub open spec fn nav_html(
    gs: Seq<(Seq<char>, Seq<char>, Seq<(Seq<char>, Seq<char>, Seq<char>, Seq<Seq<char>>)>)>,
    active: Seq<char>,
) -> Seq<char>
    decreases gs.len(),
{
    if gs.len() == 0 {
        Seq::empty()
    } else {
        nav_html(gs.drop_last(), active) + group_html(gs.last(), active)
    }
}

fn push_group(out: &mut String, g: &NavGroup, active: &str)
    ensures
        final(out)@ == old(out)@ + group_html(group_view(*g), active@),
{
    let ghost lv = links_view(g.links@);
    let mut items = String::new();
    let mut any = false;
    let mut i: usize = 0;
    proof {
        assert(lv.take(0) =~= Seq::<(Seq<char>, Seq<char>, Seq<char>, Seq<Seq<char>>)>::empty());
    }
    while i < g.links.len()
        invariant
            i <= g.links@.len(),
            lv == links_view(g.links@),
            items@ == links_html(lv.take(i as int), active@),
            any == group_active(lv.take(i as int), active@),
        decreases g.links.len() - i,
    {
        let l = &g.links[i];
        let ghost before = items@;
        let on = link_is_active(l, active);
        items.append("<a href=\"");
        items.append(l.href);
        items.append("\"");
        if on {
            items.append(" aria-current=\"page\"");
        }
        items.append(">");
        items.append(icon(l.icon).as_str());
        items.append("<span>");
        push_esc(&mut items, l.label);
        items.append("</span></a>");
        proof {
            assert(lv[i as int] == link_view(*l));
            assert(lv.take(i + 1).drop_last() =~= lv.take(i as int));
            assert(lv.take(i + 1).last() == lv[i as int]);
            assert(items@ =~= before + link_html(lv[i as int], active@));
            if on {
                assert(lv.take(i + 1)[i as int] == lv[i as int]);
            }
            if !any && !on {
                assert forall|k: int| 0 <= k < lv.take(i + 1).len() implies !#[trigger] link_active(
                    lv.take(i + 1)[k],
                    active@,
                ) by {
                    if k < i {
                        assert(lv.take(i + 1)[k] == lv.take(i as int)[k]);
                    }
                }
            }
            if any {
                let k = choose|k: int| 0 <= k < lv.take(i as int).len() && #[trigger] link_active(
                    lv.take(i as int)[k],
                    active@,
                );
                assert(lv.take(i + 1)[k] == lv.take(i as int)[k]);
            }
        }
        any = any || on;
        i += 1;
    }
    proof {
        assert(lv.take(g.links@.len() as int) =~= lv);
    }
    out.append("<div class=\"nav-group\" data-group=\"");
    out.append(g.id);
    out.append("\" data-active=\"");
    out.append(if any { "1" } else { "0" });
    out.append("\">\n<button type=\"button\" class=\"nav-group-head\" aria-expanded=\"true\" aria-controls=\"nav-");
    out.append(g.id);
    out.append("\"><span class=\"chev\">");
    out.append(icon("chevron").as_str());
    out.append("</span>");
    push_esc(out, g.label);
    out.append("</button>\n<div class=\"nav-items\" id=\"nav-");
    out.append(g.id);
    out.append("\">");
    out.append(items.as_str());
    out.append("</div>\n</div>");
    proof {
        assert(final(out)@ =~= old(out)@ + group_html(group_view(*g), active@));
    }
}

fn nav_exec(groups: &Vec<NavGroup>, active: &str) -> (r: String)
    ensures
        r@ == nav_html(nav_view(groups@), active@),
{
    let ghost gv = nav_view(groups@);
    let mut out = String::new();
    let mut i: usize = 0;
    proof {
        assert(gv.take(0) =~= Seq::<(Seq<char>, Seq<char>, Seq<(Seq<char>, Seq<char>, Seq<char>, Seq<Seq<char>>)>)>::empty());
    }
    while i < groups.len()
        invariant
            i <= groups@.len(),
            gv == nav_view(groups@),
            out@ == nav_html(gv.take(i as int), active@),
        decreases groups.len() - i,
    {
        push_group(&mut out, &groups[i], active);
        proof {
            assert(gv[i as int] == group_view(groups@[i as int]));
            assert(gv.take(i + 1).drop_last() =~= gv.take(i as int));
            assert(gv.take(i + 1).last() == gv[i as int]);
        }
        i += 1;
    }
    proof {
        assert(gv.take(groups@.len() as int) =~= gv);
    }
    out
}

/// One breadcrumb hop: every level but the last is a link, to its own href
/// or, without one, to where its label leads in the navigation tree.
pub open spec fn crumb_html(
    cs: Seq<Crumb>,
    i: int,
    gs: Seq<(Seq<char>, Seq<char>, Seq<(Seq<char>, Seq<char>, Seq<char>, Seq<Seq<char>>)>)>,
) -> Seq<char> {
    let c = cs[i];
    let href = if c.href@.len() == 0 {
        nav_href_of(gs, c.label@)
    } else {
        c.href@
    };
    (if i > 0 {
        "<span class=\"sep\">/</span>"@
    } else {
        Seq::empty()
    }) + (if i + 1 == cs.len() || href.len() == 0 {
        "<span class=\"here\">"@ + escaped(c.label@) + "</span>"@
    } else {
        "<a href=\""@ + escaped(href) + "\">"@ + escaped(c.label@) + "</a>"@
    })
}

pub open spec fn crumbs_html(
    cs: Seq<Crumb>,
    n: int,
    gs: Seq<(Seq<char>, Seq<char>, Seq<(Seq<char>, Seq<char>, Seq<char>, Seq<Seq<char>>)>)>,
) -> Seq<char>
    decreases n,
{
    if n <= 0 {
        Seq::empty()
    } else {
        crumbs_html(cs, n - 1, gs) + crumb_html(cs, n - 1, gs)
    }
}

fn crumbs_exec(crumbs: &[Crumb], groups: &Vec<NavGroup>) -> (r: String)
    ensures
        r@ == crumbs_html(crumbs@, crumbs@.len() as int, nav_view(groups@)),
{
    let mut out = String::new();
    let mut i: usize = 0;
    while i < crumbs.len()
        invariant
            i <= crumbs@.len(),
            out@ == crumbs_html(crumbs@, i as int, nav_view(groups@)),
        decreases crumbs.len() - i,
    {
        let c = &crumbs[i];
        let ghost before = out@;
        if i > 0 {
            out.append("<span class=\"sep\">/</span>");
        }
        let ghost mid = out@;
        let href = if c.href.as_str().is_empty() {
            nav_href(groups.as_slice(), c.label.as_str())
        } else {
            owned(c.href.as_str())
        };
        if i + 1 == crumbs.len() || href.as_str().is_empty() {
            out.append("<span class=\"here\">");
            push_esc(&mut out, c.label.as_str());
            out.append("</span>");
        } else {
            out.append("<a href=\"");
            push_esc(&mut out, href.as_str());
            out.append("\">");
            push_esc(&mut out, c.label.as_str());
            out.append("</a>");
        }
        proof {
            if i == 0 {
                assert(mid =~= before + Seq::<char>::empty());
            }
            assert(out@ =~= before + crumb_html(crumbs@, i as int, nav_view(groups@)));
        }
        i += 1;
    }
    out
}

/// The page's title: the last breadcrumb, or "Dashboard".
pub open spec fn page_title(cs: Seq<Crumb>) -> Seq<char> {
    if cs.len() > 0 {
        cs.last().label@
    } else {
        "Dashboard"@
    }
}

/// The freshness indicator: live with the repo's timestamp, or a fault.
pub open spec fn fresh_parts(f: Freshness) -> (Seq<char>, Seq<char>, Seq<char>) {
    if f.live {
        ("dot dot-ok"@, "live"@, " · "@ + escaped(f.stamp@))
    } else {
        ("dot dot-bad"@, "cannot read repo"@, Seq::empty())
    }
}

/// The error banner of a page that could not read everything.
pub open spec fn fetch_error_html(f: Freshness) -> Seq<char> {
    match f.reason {
        Some(r) => banner_html(r@),
        None => Seq::empty(),
    }
}

/// The full page: sidebar, top bar (breadcrumbs and freshness), the optional
/// secondary bar, the error banner when a read failed, the body, the footer
/// (with the read telemetry as a comment), and the settings popover.
pub open spec fn layout_html(
    active: Seq<char>,
    crumbs: Seq<Crumb>,
    subbar: Seq<char>,
    body: Seq<char>,
    fresh: Freshness,
    reads: Seq<char>,
) -> Seq<char> {
    let gs = nav_spec();
    let (dot, source, stamp) = fresh_parts(fresh);
    SHELL_0@ + escaped(page_title(crumbs)) + SHELL_1@ + wordmark_html("wordmark"@) + SHELL_2@
        + nav_html(gs, active) + SHELL_3@ + icon_svg("sliders"@) + SHELL_4@ + wordmark_html(
        "wordmark wordmark-bar"@,
    ) + SHELL_5@ + crumbs_html(crumbs, crumbs.len() as int, gs) + SHELL_6@ + dot + SHELL_7@
        + source + SHELL_8@ + stamp + SHELL_9@ + icon_sized_svg("burger"@, 18) + SHELL_10@
        + subbar + SHELL_11@ + fetch_error_html(fresh) + SHELL_12@ + body + SHELL_13@ + escaped(
        fresh.build@,
    ) + SHELL_14@ + escaped(reads) + SHELL_15@ + popover_html() + SHELL_16@
}

/// The page around `body`. `active` is the current route; `subbar` and `body`
/// are already-safe HTML; `reads` is the read telemetry line the footer
/// carries as a comment.
#[verifier::rlimit(40)]
pub fn layout(
    active: &str,
    crumbs: &[Crumb],
    subbar: &str,
    body: &str,
    fresh: &Freshness,
    reads: &str,
) -> (r: String)
    ensures
        r@ == layout_html(active@, crumbs@, subbar@, body@, *fresh, reads@),
{
    let groups = nav();
    let nav_part = nav_exec(&groups, active);
    let crumb_part = crumbs_exec(crumbs, &groups);
    let title = if crumbs.len() > 0 {
        owned(crumbs[crumbs.len() - 1].label.as_str())
    } else {
        owned("Dashboard")
    };
    let mut out = owned(SHELL_0);
    push_esc(&mut out, title.as_str());
    out.append(SHELL_1);
    out.append(wordmark("wordmark").as_str());
    out.append(SHELL_2);
    out.append(nav_part.as_str());
    out.append(SHELL_3);
    out.append(icon("sliders").as_str());
    out.append(SHELL_4);
    out.append(wordmark("wordmark wordmark-bar").as_str());
    out.append(SHELL_5);
    out.append(crumb_part.as_str());
    out.append(SHELL_6);
    if fresh.live {
        out.append("dot dot-ok");
        out.append(SHELL_7);
        out.append("live");
        out.append(SHELL_8);
        out.append(" · ");
        push_esc(&mut out, fresh.stamp.as_str());
    } else {
        out.append("dot dot-bad");
        out.append(SHELL_7);
        out.append("cannot read repo");
        out.append(SHELL_8);
    }
    out.append(SHELL_9);
    out.append(icon_sized("burger", 18).as_str());
    out.append(SHELL_10);
    out.append(subbar);
    out.append(SHELL_11);
    match &fresh.reason {
        Some(r) => {
            out.append(fetch_error_banner(r.as_str()).as_str());
        },
        None => {},
    }
    out.append(SHELL_12);
    out.append(body);
    out.append(SHELL_13);
    push_esc(&mut out, fresh.build.as_str());
    out.append(SHELL_14);
    push_esc(&mut out, reads);
    out.append(SHELL_15);
    out.append(settings_popover().as_str());
    out.append(SHELL_16);
    proof {
        assert(out@ =~= layout_html(active@, crumbs@, subbar@, body@, *fresh, reads@));
    }
    out
}

} // verus!
