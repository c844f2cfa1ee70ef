# xml

An XML library verified with Verus.

- `src/text.rs`: `escape` and `unescape` of character data, with their
  specifications (`escaped`, `unescaped`) and the law that unescaping undoes
  escaping.
- `src/element.rs`: the tree (`Xml`, `Element`), its builders and lookups
  (attributes, children, character content), and a deep `Clone`.
- `src/display.rs`: writing nodes and elements as XML text (`to_string`),
  with namespace declarations and prefixes.
- `src/assoc.rs`: association lists, which hold attributes and namespace
  prefixes, read as maps.
- `src/event.rs`: the events a parser of XML text reports.
- `src/equality.rs`: `==` on nodes, elements and start tags, with attributes
  and namespace prefixes compared as maps.
- `src/laws.rs`: laws that relate the operations on elements.
