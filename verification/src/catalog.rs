//! The official skills shipped with the library: one directory per skill,
//! each holding its `SKILL.md`. Every `SKILL.md` opens with front matter
//! whose first field is the skill's name; the rest of each document follows.

use vstd::prelude::*;

use crate::bundled::{BundledDir, BundledFile};
use crate::text::has_substring;

verus! {

/// The `SKILL.md` of `code-review`, after its name line.
pub const CODE_REVIEW_BODY: &'static str = "description: \"Review code changes for bugs, security issues, performance, and readability\"
license: Apache-2.0
metadata:
  author: moltis
  version: \"1.0\"
allowed-tools: Bash Read Grep Glob
---

# Code Review

Perform a thorough code review on changed files or a pull request diff.

## When to use

Use this skill when the user asks for a code review, PR review, or wants feedback on their changes.

## Steps

1. Identify the changes to review:
   - If a PR number or branch is mentioned, run `git diff main...HEAD` (or the appropriate base branch)
   - Otherwise, run `git diff` for unstaged or `git diff --cached` for staged changes
2. Read the full diff and understand the context by reading surrounding code in modified files.
3. Evaluate each change across these dimensions:

### Correctness
- Logic errors, off-by-one bugs, null/undefined handling
- Edge cases not covered
- Race conditions in concurrent code

### Security
- Input validation and sanitization
- SQL injection, XSS, command injection risks
- Secrets or credentials in code
- SSRF or path traversal vulnerabilities

### Performance
- Unnecessary allocations or copies
- N+1 query patterns
- Missing indexes or inefficient data structures
- Blocking calls in async context

### Readability
- Clear naming and intent
- Appropriate abstractions (not over- or under-engineered)
- Missing or misleading comments

4. Present findings organized by severity: **Critical** > **Warning** > **Suggestion**
5. For each finding, include the file, line, and a concrete fix suggestion.

## Rules

- Be specific and actionable, not vague
- Praise good patterns alongside pointing out issues
- Do not suggest style changes unless they affect readability significantly
";

/// The `SKILL.md` of `commit`, after its name line.
pub const COMMIT_BODY: &'static str = "description: \"Analyze staged changes and generate a conventional commit message\"
license: Apache-2.0
metadata:
  author: moltis
  version: \"1.0\"
allowed-tools: Bash Read Grep Glob
---

# Smart Commit

Generate a well-structured conventional commit message by analyzing staged changes.

## When to use

Use this skill when the user asks to commit changes, create a commit, or asks for a commit message.

## Steps

1. Run `git diff --cached --stat` to see which files are staged. If nothing is staged, check `git status` and suggest what to stage.
2. Run `git diff --cached` to read the full diff of staged changes.
3. Run `git log --oneline -10` to understand the repository's commit message style and conventions.
4. Analyze the changes:
   - Determine the type: `feat`, `fix`, `docs`, `style`, `refactor`, `test`, `chore`, `perf`, `ci`, `build`
   - Identify the scope from the changed files/modules
   - Summarize the **why** not the **what**
5. Generate a commit message following conventional commits format:
   ```
   type(scope): concise description

   Optional body explaining motivation and context.
   ```
6. Present the message to the user for approval before committing.
7. If approved, run `git commit -m \"<message>\"`.

## Rules

- Keep the subject line under 72 characters
- Use imperative mood (\"add\" not \"added\")
- Do not include file lists in the commit message
- If changes span multiple unrelated concerns, suggest splitting into multiple commits
- Never use `--no-verify` or skip hooks unless explicitly asked
";

/// The `SKILL.md` of `debug`, after its name line.
pub const DEBUG_BODY: &'static str = "description: \"Systematically debug errors using root-cause analysis\"
license: Apache-2.0
metadata:
  author: moltis
  version: \"1.0\"
allowed-tools: Bash Read Grep Glob
---

# Systematic Debugger

Diagnose and fix bugs through structured root-cause analysis.

## When to use

Use this skill when the user reports a bug, error, test failure, or unexpected behavior.

## Steps

1. **Reproduce**: Understand and reproduce the issue.
   - Get the exact error message, stack trace, or unexpected output
   - Identify the minimal reproduction steps
   - Run the failing command/test to confirm the issue

2. **Locate**: Find where the error originates.
   - Search for the error message in the codebase
   - Trace the call stack from the error site upward
   - Identify the exact line where behavior diverges from expectation

3. **Understand**: Analyze why the code fails.
   - Read the surrounding code and understand the intended logic
   - Check recent changes with `git log -p --follow <file>` if relevant
   - Identify the root cause (not just the symptom)

4. **Fix**: Apply the minimal correct fix.
   - Change only what is necessary to fix the root cause
   - Consider edge cases the fix might affect
   - Do not refactor unrelated code

5. **Verify**: Confirm the fix works.
   - Re-run the failing test/command
   - Run the full test suite to check for regressions
   - Explain the root cause and fix to the user

## Rules

- Always reproduce before fixing
- Fix the root cause, not the symptom
- One bug, one fix (do not bundle unrelated changes)
- If the fix is uncertain, explain the hypothesis before applying it
";

/// The `SKILL.md` of `doc-gen`, after its name line.
pub const DOC_GEN_BODY: &'static str = "description: \"Generate documentation for functions, modules, and APIs\"
license: Apache-2.0
metadata:
  author: moltis
  version: \"1.0\"
allowed-tools: Read Write Edit Grep Glob
---

# Documentation Generator

Generate clear, accurate documentation for code.

## When to use

Use this skill when the user asks to document code, add docstrings, generate API docs, or explain a module.

## Steps

1. Read the target code thoroughly to understand its purpose, inputs, outputs, and side effects.
2. Determine the documentation format for the language:
   - Rust: `///` doc comments with `# Examples` sections
   - Python: Google-style or NumPy-style docstrings (match existing convention)
   - JavaScript/TypeScript: JSDoc `/** */` comments
3. For each public item, document:
   - **Purpose**: What it does in one sentence
   - **Parameters**: Name, type, and meaning of each parameter
   - **Returns**: What is returned and when
   - **Errors**: When and why it can fail
   - **Examples**: A minimal usage example (when helpful)
   - **Panics/Safety** (Rust): Document panic conditions and unsafe invariants
4. Write documentation that adds value beyond what the type signature already tells you.
5. Do not document private implementation details unless they are complex.

## Rules

- Match the project's existing documentation style
- Be concise: one sentence is better than a paragraph when it suffices
- Document the **why** and **when**, not just the **what**
- Include examples only when the usage is non-obvious
- Do not add `@param` tags that just repeat the parameter name
";

/// The `SKILL.md` of `explain`, after its name line.
pub const EXPLAIN_BODY: &'static str = "description: \"Explain code step-by-step in a beginner-friendly way\"
license: Apache-2.0
metadata:
  author: moltis
  version: \"1.0\"
allowed-tools: Read Grep Glob
---

# Code Explainer

Explain code clearly, step by step, suitable for developers at any level.

## When to use

Use this skill when the user asks to explain code, understand a function, or asks \"what does this do?\".

## Steps

1. Read the target code completely, including imports and type definitions it depends on.
2. Provide a **one-sentence summary** of what the code does at a high level.
3. Walk through the code section by section:
   - Explain each logical block (not every line)
   - Describe **what** it does and **why** it does it that way
   - Highlight non-obvious patterns, idioms, or tricks
   - Explain any domain-specific terminology
4. If the code uses external libraries or APIs, briefly explain what those do.
5. End with:
   - **Key takeaways**: The most important things to understand
   - **Potential gotchas**: Subtle behavior or edge cases to be aware of

## Rules

- Adjust depth to the user's apparent experience level
- Use analogies for complex concepts when helpful
- Do not just restate the code in English; explain the reasoning
- If the code has bugs or issues, mention them but keep focus on explanation
- Keep explanations structured with clear headings
";

/// The `SKILL.md` of `refactor`, after its name line.
pub const REFACTOR_BODY: &'static str = "description: \"Refactor code to improve readability and maintainability without changing behavior\"
license: Apache-2.0
metadata:
  author: moltis
  version: \"1.0\"
allowed-tools: Bash Read Write Edit Grep Glob
---

# Code Refactor

Improve code structure, readability, and maintainability while preserving exact behavior.

## When to use

Use this skill when the user asks to refactor, clean up, simplify, or restructure code.

## Steps

1. Read the target code and understand its current behavior completely.
2. Run existing tests to establish a baseline: `cargo test` / `npm test` / `pytest`.
3. Identify refactoring opportunities:
   - Extract repeated code into shared functions
   - Simplify complex conditionals with guard clauses
   - Replace manual loops with iterators/combinators where clearer
   - Reduce function length (aim for single responsibility)
   - Improve naming to better express intent
   - Remove dead code
4. Apply changes incrementally, one refactoring at a time.
5. After each change, run tests to verify behavior is preserved.
6. Summarize what was changed and why.

## Rules

- Never change observable behavior
- If no tests exist, write them first before refactoring
- Prefer small, reviewable changes over large rewrites
- Do not add features or fix bugs during refactoring
- Keep the diff minimal and focused
";

/// The `SKILL.md` of `skill-creator`, after its name line.
pub const SKILL_CREATOR_BODY: &'static str = "description: \"Create new SKILL.md skills interactively following the Agent Skills standard\"
license: Apache-2.0
metadata:
  author: moltis
  version: \"1.0\"
allowed-tools: Bash Read Write Edit Glob
---

# Skill Creator

Create new SKILL.md files following the Agent Skills open standard (agentskills.io).

## When to use

Use this skill when the user asks to create a new skill, write a SKILL.md, or make a custom skill.

## Steps

1. Ask the user for:
   - **Name**: kebab-case identifier (e.g., `deploy-vercel`)
   - **Description**: One-line summary of what the skill does
   - **Purpose**: When should the agent use this skill?
2. Create the skill directory and SKILL.md:
   - Personal skills: `~/.moltis/skills/<name>/SKILL.md`
   - Project skills: `.moltis/skills/<name>/SKILL.md`
3. Write the SKILL.md with proper frontmatter:

```markdown
---
name: <name>
description: \"<description>\"
license: MIT
metadata:
  author: <user>
  version: \"1.0\"
allowed-tools: <list of tools the skill needs>
---

# <Title>

<Clear instructions for the agent>

## When to use

<Trigger conditions>

## Steps

1. <Step 1>
2. <Step 2>
3. <Step 3>

## Rules

- <Constraint 1>
- <Constraint 2>
```

4. Validate the SKILL.md:
   - `name` in frontmatter matches directory name
   - `description` is present and concise
   - Instructions are clear and actionable
5. Inform the user the skill is ready and how to invoke it (e.g., `/skill-name`).

## Rules

- Always use kebab-case for skill names
- Keep instructions specific and actionable
- Include \"When to use\" and \"Steps\" sections at minimum
- List only the tools the skill actually needs in `allowed-tools`
- Default to personal skills directory unless user specifies project scope
";

/// The `SKILL.md` of `test-gen`, after its name line.
pub const TEST_GEN_BODY: &'static str = "description: \"Generate unit tests for existing code with high coverage\"
license: Apache-2.0
metadata:
  author: moltis
  version: \"1.0\"
allowed-tools: Bash Read Write Edit Grep Glob
---

# Test Generator

Generate comprehensive unit tests for existing functions, methods, or modules.

## When to use

Use this skill when the user asks to generate tests, add test coverage, or write unit tests for specific code.

## Steps

1. Read the target file(s) to understand the code under test.
2. Identify the testing framework already in use:
   - Rust: built-in `#[cfg(test)]` module, look for existing test patterns
   - JavaScript/TypeScript: look for jest, vitest, mocha, or playwright configs
   - Python: look for pytest, unittest patterns
3. Analyze each public function/method for:
   - Happy path scenarios
   - Edge cases (empty input, boundary values, max/min)
   - Error cases (invalid input, missing data, network failures)
   - Null/None/undefined handling
4. Generate tests following the project's existing test conventions:
   - Match naming style (`test_*`, `it(\"should ...\")`, etc.)
   - Use the same assertion library
   - Follow AAA pattern: Arrange, Act, Assert
5. Place tests in the correct location:
   - Rust: `#[cfg(test)] mod tests` in the same file, or `tests/` directory
   - JS/TS: co-located `*.test.ts` or `__tests__/` directory
6. Run the tests to verify they pass.

## Rules

- Test behavior, not implementation details
- Each test should test one thing and have a clear name
- Do not mock what you do not own unless necessary
- Prefer real values over random/generated test data
- Include both positive and negative test cases
";

/// The names of the bundled skills, in the order they are provisioned.
pub open spec fn bundled_names() -> Seq<Seq<char>> {
    seq!["code-review"@, "commit"@, "debug"@, "doc-gen"@, "explain"@, "refactor"@, "skill-creator"@, "test-gen"@]
}

/// The documents of the bundled skills after their name lines, in the same order.
pub open spec fn bundled_bodies() -> Seq<Seq<char>> {
    seq![CODE_REVIEW_BODY@, COMMIT_BODY@, DEBUG_BODY@, DOC_GEN_BODY@, EXPLAIN_BODY@, REFACTOR_BODY@, SKILL_CREATOR_BODY@, TEST_GEN_BODY@]
}

/// The opening of a `SKILL.md`: the front matter marker and the name field.
pub open spec fn front_matter(name: Seq<char>) -> Seq<char> {
    seq!['-', '-', '-', '\n', 'n', 'a', 'm', 'e', ':', ' '] + name + seq!['\n']
}

/// A document that opens with the front matter of `name` declares that
/// name: it holds the text `name: ` followed by the name.
pub proof fn lemma_document_declares_name(name: Seq<char>, body: Seq<char>)
    ensures
        has_substring(front_matter(name) + body, seq!['n', 'a', 'm', 'e', ':', ' '] + name),
{
    let doc = front_matter(name) + body;
    let field = seq!['n', 'a', 'm', 'e', ':', ' '] + name;
    assert(doc.subrange(4, 4 + field.len() as int) =~= field);
}

/// A skill directory holding one `SKILL.md`: the front matter line naming
/// the skill, then `body`.
fn skill_dir(name: &str, body: &str) -> (d: BundledDir)
    ensures
        d.name@ == name@,
        d.files@.len() == 1,
        d.files@[0].name@ == "SKILL.md"@,
        d.files@[0].contents@ == front_matter(name@) + body@,
        d.dirs@.len() == 0,
{
    let mut document = String::from_str("---\nname: ");
    document.append(name);
    document.append("\n");
    document.append(body);
    proof {
        reveal_strlit("---\nname: ");
        reveal_strlit("\n");
        assert(document@ =~= front_matter(name@) + body@);
    }
    let mut files: Vec<BundledFile> = Vec::new();
    files.push(BundledFile { name: String::from_str("SKILL.md"), contents: document });
    BundledDir { name: String::from_str(name), files, dirs: Vec::new() }
}

/// The bundled skills: each a directory of its name holding one `SKILL.md`,
/// whose text is the front matter line naming the skill followed by the
/// skill's body.
pub fn bundled_skills() -> (r: Vec<BundledDir>)
    ensures
        r@.map_values(|d: BundledDir| d.name@) == bundled_names(),
        forall|i: int| 0 <= i < r@.len() ==> {
            &&& (#[trigger] r@[i]).files@.len() == 1
            &&& r@[i].files@[0].name@ == "SKILL.md"@
            &&& r@[i].files@[0].contents@ == front_matter(r@[i].name@) + bundled_bodies()[i]
            &&& r@[i].dirs@.len() == 0
        },
{
    let mut r: Vec<BundledDir> = Vec::new();
    r.push(skill_dir("code-review", CODE_REVIEW_BODY));
    r.push(skill_dir("commit", COMMIT_BODY));
    r.push(skill_dir("debug", DEBUG_BODY));
    r.push(skill_dir("doc-gen", DOC_GEN_BODY));
    r.push(skill_dir("explain", EXPLAIN_BODY));
    r.push(skill_dir("refactor", REFACTOR_BODY));
    r.push(skill_dir("skill-creator", SKILL_CREATOR_BODY));
    r.push(skill_dir("test-gen", TEST_GEN_BODY));
    assert(r@.map_values(|d: BundledDir| d.name@) =~= bundled_names());
    r
}

} // verus!
