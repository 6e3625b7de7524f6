//! The style sheet and the script of an HTML page.

use vstd::prelude::*;

verus! {

/// The style sheet of a page.
pub const CSS: &'static str = r#"
* { box-sizing: border-box; }
body {
  margin: 0;
  font: 14px/1.4 -apple-system, BlinkMacSystemFont, "Segoe UI", sans-serif;
  color: #222;
  background: #fafafa;
}
header {
  position: sticky; top: 0; z-index: 10;
  background: #fff;
  border-bottom: 1px solid #ddd;
  padding: 10px 20px;
  display: flex; align-items: center; gap: 20px;
}
header h1 { font-size: 18px; margin: 0; }
header .meta { margin: 0; color: #666; font-size: 12px; }
header input[type=search] {
  margin-left: auto;
  padding: 6px 10px;
  border: 1px solid #ccc;
  border-radius: 4px;
  font: inherit;
  width: 280px;
}
.layout { display: flex; height: calc(100vh - 52px); }
nav#nav {
  width: 320px;
  overflow-y: auto;
  border-right: 1px solid #ddd;
  padding: 12px;
  background: #fff;
  font-size: 13px;
}
nav ul { list-style: none; padding-left: 14px; margin: 2px 0; }
nav > ul.nav-root { padding-left: 0; }
nav a {
  color: #333;
  text-decoration: none;
  display: block;
  padding: 1px 4px;
  border-radius: 3px;
  white-space: nowrap;
  overflow: hidden;
  text-overflow: ellipsis;
}
nav a:hover { background: #eef; }
nav li.hidden { display: none; }
main { flex: 1; overflow-y: auto; padding: 20px 30px; }
section.module > h2 {
  margin-top: 0;
  border-bottom: 2px solid #333;
  padding-bottom: 4px;
}
section.ext > h3 {
  margin-top: 24px;
  color: #555;
  border-bottom: 1px dashed #aaa;
  padding-bottom: 2px;
}
.symbols { margin-left: 0; }
.sym {
  margin: 6px 0;
  padding-left: 8px;
  border-left: 2px solid #ddd;
}
.sym.hidden { display: none; }
.sym pre {
  margin: 0;
  background: #f0f0f0;
  padding: 4px 8px;
  border-radius: 3px;
  overflow-x: auto;
  font: 12px/1.4 ui-monospace, SFMono-Regular, Menlo, monospace;
}
details.sym > summary {
  cursor: pointer;
  list-style: none;
}
details.sym > summary::-webkit-details-marker { display: none; }
details.sym > summary::before {
  content: "▸ ";
  color: #888;
  font-size: 10px;
}
details.sym[open] > summary::before { content: "▾ "; }
.children { margin-left: 12px; margin-top: 4px; }
.sym:target > pre, .sym:target > summary > pre {
  background: #fff8c5;
}
"#;

/// The script of a page: it hides the symbols whose names do not contain what
/// is typed into the filter.
pub const JS: &'static str = r#"
(function() {
  const filter = document.getElementById('filter');
  if (!filter) return;

  function apply(q) {
    q = q.trim().toLowerCase();
    // Show/hide symbols in main.
    document.querySelectorAll('.sym').forEach(el => {
      const name = el.dataset.name || '';
      const match = !q || name.includes(q);
      el.classList.toggle('hidden', !match);
      if (match && q) {
        // Ensure ancestor <details> are open so match is visible.
        let p = el.parentElement;
        while (p) {
          if (p.tagName === 'DETAILS') p.open = true;
          p = p.parentElement;
        }
      }
    });
    // Show/hide nav entries whose link points to a visible symbol.
    document.querySelectorAll('nav li').forEach(li => {
      const a = li.querySelector(':scope > a');
      if (!a) return;
      const href = a.getAttribute('href');
      if (!href || !href.startsWith('#')) return;
      const target = document.getElementById(href.slice(1));
      // Keep module/extension-level entries always visible.
      if (target && (target.classList.contains('module') || target.classList.contains('ext'))) {
        li.classList.remove('hidden');
        return;
      }
      const visible = target && !target.classList.contains('hidden');
      li.classList.toggle('hidden', !visible);
    });
  }

  filter.addEventListener('input', e => apply(e.target.value));
})();
"#;

/// The style sheet holds no `<`, and no attribute value in quotation marks.
pub proof fn lemma_css()
    ensures
        forall|i: int| 0 <= i < CSS@.len() ==> #[trigger] CSS@[i] != '<',
        forall|i: int|
            0 <= i < CSS@.len() && #[trigger] CSS@[i] == '"' ==> i > 0 && CSS@[i - 1] != '=',
{
    reveal_strlit(
        r#"
* { box-sizing: border-box; }
body {
  margin: 0;
  font: 14px/1.4 -apple-system, BlinkMacSystemFont, "Segoe UI", sans-serif;
  color: #222;
  background: #fafafa;
}
header {
  position: sticky; top: 0; z-index: 10;
  background: #fff;
  border-bottom: 1px solid #ddd;
  padding: 10px 20px;
  display: flex; align-items: center; gap: 20px;
}
header h1 { font-size: 18px; margin: 0; }
header .meta { margin: 0; color: #666; font-size: 12px; }
header input[type=search] {
  margin-left: auto;
  padding: 6px 10px;
  border: 1px solid #ccc;
  border-radius: 4px;
  font: inherit;
  width: 280px;
}
.layout { display: flex; height: calc(100vh - 52px); }
nav#nav {
  width: 320px;
  overflow-y: auto;
  border-right: 1px solid #ddd;
  padding: 12px;
  background: #fff;
  font-size: 13px;
}
nav ul { list-style: none; padding-left: 14px; margin: 2px 0; }
nav > ul.nav-root { padding-left: 0; }
nav a {
  color: #333;
  text-decoration: none;
  display: block;
  padding: 1px 4px;
  border-radius: 3px;
  white-space: nowrap;
  overflow: hidden;
  text-overflow: ellipsis;
}
nav a:hover { background: #eef; }
nav li.hidden { display: none; }
main { flex: 1; overflow-y: auto; padding: 20px 30px; }
section.module > h2 {
  margin-top: 0;
  border-bottom: 2px solid #333;
  padding-bottom: 4px;
}
section.ext > h3 {
  margin-top: 24px;
  color: #555;
  border-bottom: 1px dashed #aaa;
  padding-bottom: 2px;
}
.symbols { margin-left: 0; }
.sym {
  margin: 6px 0;
  padding-left: 8px;
  border-left: 2px solid #ddd;
}
.sym.hidden { display: none; }
.sym pre {
  margin: 0;
  background: #f0f0f0;
  padding: 4px 8px;
  border-radius: 3px;
  overflow-x: auto;
  font: 12px/1.4 ui-monospace, SFMono-Regular, Menlo, monospace;
}
details.sym > summary {
  cursor: pointer;
  list-style: none;
}
details.sym > summary::-webkit-details-marker { display: none; }
details.sym > summary::before {
  content: "▸ ";
  color: #888;
  font-size: 10px;
}
details.sym[open] > summary::before { content: "▾ "; }
.children { margin-left: 12px; margin-top: 4px; }
.sym:target > pre, .sym:target > summary > pre {
  background: #fff8c5;
}
"#,
    );
}

/// The script holds no quotation mark, and no `<` but that of `<details>`.
pub proof fn lemma_js()
    ensures
        forall|i: int| 0 <= i < JS@.len() ==> #[trigger] JS@[i] != '"',
        forall|i: int|
            0 <= i < JS@.len() && #[trigger] JS@[i] == '<' ==> i + 1 < JS@.len() && JS@[i + 1]
                == 'd',
{
    reveal_strlit(
        r#"
(function() {
  const filter = document.getElementById('filter');
  if (!filter) return;

  function apply(q) {
    q = q.trim().toLowerCase();
    // Show/hide symbols in main.
    document.querySelectorAll('.sym').forEach(el => {
      const name = el.dataset.name || '';
      const match = !q || name.includes(q);
      el.classList.toggle('hidden', !match);
      if (match && q) {
        // Ensure ancestor <details> are open so match is visible.
        let p = el.parentElement;
        while (p) {
          if (p.tagName === 'DETAILS') p.open = true;
          p = p.parentElement;
        }
      }
    });
    // Show/hide nav entries whose link points to a visible symbol.
    document.querySelectorAll('nav li').forEach(li => {
      const a = li.querySelector(':scope > a');
      if (!a) return;
      const href = a.getAttribute('href');
      if (!href || !href.startsWith('#')) return;
      const target = document.getElementById(href.slice(1));
      // Keep module/extension-level entries always visible.
      if (target && (target.classList.contains('module') || target.classList.contains('ext'))) {
        li.classList.remove('hidden');
        return;
      }
      const visible = target && !target.classList.contains('hidden');
      li.classList.toggle('hidden', !visible);
    });
  }

  filter.addEventListener('input', e => apply(e.target.value));
})();
"#,
    );
}

} // verus!
