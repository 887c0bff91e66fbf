# customize_nft

The rules of an NFT customization contract, written in Verus and proved.

An *equippable* NFT carries attributes: one item name per slot, written as
`slot:name` parts joined with `;` (an empty slot reads `unequipped`). The
contract is set up with the equippable collection, an IPFS gateway and a
name format holding `{number}`; item collections are registered to slots,
and each token of such a collection is the item named as the token is, on
that slot. A customization receives the equippable and the items
to put on it, takes items off the slots asked for, puts the new items on
(sending back what they replace), and mints the equippable again with the
picture rendered for its new look.

Layout:

- `src/utils`: byte-buffer helpers (split, replace, number parsing and
  printing), big-endian amounts, sorting and unordered comparison.
- `src/structs`: slots, attributes and their text forms, items, tokens,
  images to render.
- `src/libs`: the item registry, the render queue and the URIs of rendered
  pictures, the customization itself, and small helpers for names and URLs.
- `src/equip.rs`: the contract's state and its owner endpoints.
- `src/penguin`: the fixed-slot penguin customization.
- `tests`: scenarios for every module.
- `app`: the contract on the chain: storage, transfers and minting around the
  library's decisions.
